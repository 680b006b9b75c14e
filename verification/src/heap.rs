//! The garbage-collected heap: allocation, resolution, and mark-and-sweep collection.

use vstd::prelude::*;

use vstd::string::StringExecFns;

use crate::error::GcError;
use crate::handle::Gc;
use crate::graph::{
    is_path, lemma_closed_set_holds_reachable, lemma_path_extend, lemma_root_path, live_in, names,
    points_to, reachable,
};
use crate::trace::{Trace, Tracer};

verus! {

/// One storage slot: its occupant, if any, and its generation stamp.
struct Slot<T> {
    value: Option<T>,
    generation: u32,
}

/// The generation a slot takes when its occupant is reclaimed: one more, except
/// that a slot already at `u32::MAX` keeps it and is retired, never reused.
pub open spec fn next_generation(generation: u32) -> u32 {
    if generation == u32::MAX {
        u32::MAX
    } else {
        (generation + 1) as u32
    }
}

/// The indices of the occupied slots in a heap's storage.
spec fn occupied_slots<T>(slots: Seq<Slot<T>>) -> Set<int> {
    Set::new(|i: int| 0 <= i < slots.len() && slots[i].value is Some)
}

/// Rewriting one slot without changing whether it is occupied leaves the occupied
/// slots as they were.
broadcast proof fn lemma_occupied_rewrite<T>(slots: Seq<Slot<T>>, i: int, slot: Slot<T>)
    requires
        0 <= i < slots.len(),
        slots[i].value is Some <==> slot.value is Some,
    ensures
        #[trigger] occupied_slots(slots.update(i, slot)) == occupied_slots(slots),
{
    assert(occupied_slots(slots.update(i, slot)) =~= occupied_slots(slots));
}

/// The occupied slots of a heap's storage are a finite set, no larger than it.
proof fn lemma_occupied_bounded<T>(slots: Seq<Slot<T>>)
    ensures
        occupied_slots(slots).finite(),
        occupied_slots(slots).len() <= slots.len(),
{
    let range = vstd::set_lib::set_int_range(0, slots.len() as int);
    vstd::set_lib::lemma_int_range(0, slots.len() as int);
    assert(occupied_slots(slots).subset_of(range));
    vstd::set_lib::lemma_set_subset_finite(range, occupied_slots(slots));
    vstd::set_lib::lemma_len_subset(occupied_slots(slots), range);
}

/// What one sweep does to a slot that it reclaims.
pub open spec fn reclaimed_slot<T>(slot: (Option<T>, u32)) -> (Option<T>, u32) {
    (None, next_generation(slot.1))
}

/// A garbage-collected heap of `T` objects, reclaimed by tracing mark-and-sweep.
///
/// Its model is a sequence of slots, each an optional occupant and a generation
/// stamp (`self@`), and a free list of reclaimed slot indices (`free_list`), whose
/// last entry is the next one reused.
pub struct Heap<T> {
    slots: Vec<Slot<T>>,
    free: Vec<u32>,
    live: usize,
    worklist: Vec<Gc>,
    marks: Vec<u64>,
    traced: Ghost<Seq<int>>,
    reserved: usize,
}

/// What a [`collect`](Heap::collect) pass did.
///
/// `live + freed` equals the number of objects resident when the pass began.
#[derive(Clone, Copy, Debug, PartialEq, Eq, Structural)]
#[non_exhaustive]
pub struct CollectStats {
    /// Objects that survived the collection: the reachable set.
    pub live: usize,
    /// Objects reclaimed by the collection: the unreachable set.
    pub freed: usize,
}

impl<T> View for Heap<T> {
    type V = Seq<(Option<T>, u32)>;

    closed spec fn view(&self) -> Seq<(Option<T>, u32)> {
        self.slots@.map_values(|s: Slot<T>| (s.value, s.generation))
    }
}

impl<T> Heap<T> {
    /// The indices of reclaimed slots awaiting reuse; the last is reused first.
    pub closed spec fn free_list(&self) -> Seq<u32> {
        self.free@
    }

    /// The capacity of the slot store: what `Vec::capacity` reported when the
    /// heap was made and each time the store grew since. Nothing else changes it.
    pub closed spec fn reserved_capacity(&self) -> nat {
        self.reserved as nat
    }

    /// The slots whose objects the most recent collection traced, in the order it
    /// called [`Trace::trace`] on them; empty before the first collection.
    pub closed spec fn traced(&self) -> Seq<int> {
        self.traced@
    }

    /// The heap's internal consistency: every index fits in a `u32`, the free list
    /// holds empty slots, each once; an empty slot off the free list is retired at
    /// generation `u32::MAX`; and the live counter is the number of occupied slots.
    pub closed spec fn wf(&self) -> bool {
        &&& self.slots@.len() <= u32::MAX + 1
        &&& self.free@.no_duplicates()
        &&& forall|k: int|
            0 <= k < self.free@.len() ==> {
                &&& (self.free@[k] as int) < self.slots@.len()
                &&& self.slots@[self.free@[k] as int].value is None
            }
        &&& forall|i: int|
            0 <= i < self.slots@.len() && self.slots@[i].value is None && !self.free@.contains(
                i as u32,
            ) ==> self.slots@[i].generation == u32::MAX
        &&& self.live == occupied_slots(self.slots@).len()
        &&& self.reserved >= self.slots@.len()
    }

    /// Slot `i` is retired: empty, off the free list, and never reused again.
    pub open spec fn is_retired(&self, i: int) -> bool {
        &&& 0 <= i < self@.len()
        &&& self@[i].0 is None
        &&& !self.free_list().contains(i as u32)
    }

    /// `handle` names a live object: its slot exists, is occupied, and has the
    /// handle's generation.
    pub open spec fn is_live(&self, handle: Gc) -> bool {
        live_in(self@, handle)
    }

    /// The object `handle` resolves to, or `None` when it names no live object.
    pub open spec fn lookup(&self, handle: Gc) -> Option<T> {
        if self.is_live(handle) {
            self@[handle.index() as int].0
        } else {
            None
        }
    }

    /// The indices of the occupied slots.
    pub open spec fn live_set(&self) -> Set<int> {
        Set::new(|i: int| 0 <= i < self@.len() && self@[i].0 is Some)
    }

    /// The number of live objects.
    pub open spec fn live_count(&self) -> nat {
        self.live_set().len()
    }

    /// The handles that name a live object.
    pub open spec fn live_handles(&self) -> Set<Gc> {
        Set::new(|handle: Gc| self.is_live(handle))
    }

    /// Allocation fails only when no slot is free and every `u32` index is taken.
    pub open spec fn alloc_fails(&self) -> bool {
        self.free_list().len() == 0 && self@.len() > u32::MAX
    }

    /// The handle an allocation returns: the most recently freed slot at its
    /// current generation, or else a fresh slot at the end with generation 0.
    pub open spec fn next_handle_is(&self, handle: Gc) -> bool {
        if self.free_list().len() > 0 {
            &&& handle.index() == self.free_list().last()
            &&& handle.generation() == self@[self.free_list().last() as int].1
        } else {
            &&& handle.index() as int == self@.len()
            &&& handle.generation() == 0
        }
    }

    /// `next` is this heap after allocating `value` under `handle`.
    pub open spec fn allocates(&self, value: T, next: Self, handle: Gc) -> bool {
        &&& self.next_handle_is(handle)
        &&& if self.free_list().len() > 0 {
            &&& next@ == self@.update(handle.index() as int, (Some(value), handle.generation()))
            &&& next.free_list() == self.free_list().drop_last()
        } else {
            &&& next@ == self@.push((Some(value), 0u32))
            &&& next.free_list() == self.free_list()
        }
    }

    proof fn lemma_view_len(&self)
        ensures
            self@.len() == self.slots@.len(),
            forall|i: int|
                0 <= i < self.slots@.len() ==> #[trigger] self@[i] == (
                    self.slots@[i].value,
                    self.slots@[i].generation,
                ),
    {
    }

    /// Under `wf`: there are at most `u32::MAX + 1` slots, the free list holds
    /// empty slots, each once, a retired slot is at generation `u32::MAX`, and the
    /// live objects number at most the slots.
    pub proof fn lemma_wf_shape(&self)
        requires
            self.wf(),
        ensures
            self@.len() <= u32::MAX + 1,
            self.free_list().no_duplicates(),
            forall|k: int|
                0 <= k < self.free_list().len() ==> {
                    &&& (#[trigger] self.free_list()[k] as int) < self@.len()
                    &&& self@[self.free_list()[k] as int].0 is None
                },
            self.free_list().len() > 0 ==> {
                &&& (self.free_list().last() as int) < self@.len()
                &&& self@[self.free_list().last() as int].0 is None
            },
            forall|i: int| #[trigger] self.is_retired(i) ==> self@[i].1 == u32::MAX,
            self.live_set().finite(),
            self.live_count() <= self@.len(),
            self.reserved_capacity() >= self@.len(),
    {
        self.lemma_view_len();
        self.lemma_live_set_bounded();
        if self.free_list().len() > 0 {
            assert(self.free_list()[self.free_list().len() - 1] == self.free_list().last());
        }
    }

    /// The occupied slots are a finite set, no larger than the slot count.
    proof fn lemma_live_set_bounded(&self)
        ensures
            self.live_set().finite(),
            self.live_count() <= self@.len(),
    {
        let range = vstd::set_lib::set_int_range(0, self@.len() as int);
        vstd::set_lib::lemma_int_range(0, self@.len() as int);
        assert(self.live_set().subset_of(range));
        vstd::set_lib::lemma_set_subset_finite(range, self.live_set());
        vstd::set_lib::lemma_len_subset(self.live_set(), range);
    }

    /// The occupied slots other than an empty slot `i` number fewer than the slots.
    proof fn lemma_live_set_misses(&self, i: int)
        requires
            0 <= i < self@.len(),
            self@[i].0 is None,
        ensures
            self.live_count() < self@.len(),
    {
        let range = vstd::set_lib::set_int_range(0, self@.len() as int);
        vstd::set_lib::lemma_int_range(0, self@.len() as int);
        assert(self.live_set().subset_of(range.remove(i)));
        vstd::set_lib::lemma_set_subset_finite(range, self.live_set());
        vstd::set_lib::lemma_len_subset(self.live_set(), range.remove(i));
    }

    /// Under `wf`, each live object is named by exactly one live handle, so there
    /// are as many live handles as live objects.
    pub proof fn lemma_live_handles(&self)
        requires
            self.wf(),
        ensures
            self.live_handles().finite(),
            self.live_handles().len() == self.live_count(),
            self.live_count() <= self@.len(),
    {
        self.lemma_wf_shape();
        let f = |i: int| Gc::from_parts(i as u32, self@[i].1);
        let live = self.live_set();
        assert forall|i1: int, i2: int|
            live.contains(i1) && live.contains(i2) && #[trigger] f(i1) == #[trigger] f(i2) implies i1 == i2 by {
            Gc::lemma_from_parts(i1 as u32, self@[i1].1);
            Gc::lemma_from_parts(i2 as u32, self@[i2].1);
        }
        assert forall|g: Gc| #[trigger] self.live_handles().contains(g) <==> live.map(f).contains(g) by {
            if self.is_live(g) {
                let i = g.index() as int;
                Gc::lemma_from_parts(i as u32, self@[i].1);
                Gc::lemma_equal_parts(f(i), g);
                assert(live.contains(i) && f(i) == g);
            }
            if live.map(f).contains(g) {
                let i = choose|i: int| live.contains(i) && f(i) == g;
                Gc::lemma_from_parts(i as u32, self@[i].1);
            }
        }
        assert(live.map(f) =~= self.live_handles());
        vstd::set_lib::lemma_map_size(live, self.live_handles(), f);
    }

    /// Under `wf`, the live counter is the number of occupied slots.
    proof fn lemma_live_counter(&self)
        requires
            self.wf(),
        ensures
            self.live == self.live_count(),
            self.live_set().finite(),
    {
        self.lemma_live_set_bounded();
        self.lemma_occupied_is_live_set();
    }

    /// The occupied slots of the storage are the occupied slots of the model.
    proof fn lemma_occupied_is_live_set(&self)
        ensures
            occupied_slots(self.slots@) == self.live_set(),
    {
        self.lemma_view_len();
        assert(occupied_slots(self.slots@) =~= self.live_set());
    }
}

/// The number of elements `v` can hold without reallocating.
///
/// Calls `Vec::capacity`. What the allocator granted is left open; the contract
/// states only that the capacity is at least the length, as std documents.
#[verifier::external_body]
fn vec_capacity<T>(v: &Vec<T>) -> (capacity: usize)
    ensures
        capacity >= v@.len(),
{
    v.capacity()
}

impl<T> Heap<T> {
    /// Creates an empty heap. Nothing is allocated until the first value is added.
    pub fn new() -> (heap: Self)
        ensures
            heap.wf(),
            heap@ == Seq::<(Option<T>, u32)>::empty(),
            heap.free_list() == Seq::<u32>::empty(),
    {
        let slots: Vec<Slot<T>> = Vec::new();
        let reserved = vec_capacity(&slots);
        let heap = Heap {
            slots,
            free: Vec::new(),
            live: 0,
            worklist: Vec::new(),
            marks: Vec::new(),
            traced: Ghost(Seq::empty()),
            reserved,
        };
        proof {
            heap.lemma_view_len();
            assert(heap@ =~= Seq::<(Option<T>, u32)>::empty());
            assert(heap.live_set() =~= Set::<int>::empty());
            heap.lemma_occupied_is_live_set();
        }
        heap
    }

    /// Creates an empty heap with backing storage reserved for `capacity` objects.
    pub fn with_capacity(capacity: usize) -> (heap: Self)
        ensures
            heap.wf(),
            heap@ == Seq::<(Option<T>, u32)>::empty(),
            heap.free_list() == Seq::<u32>::empty(),
    {
        let slots: Vec<Slot<T>> = Vec::with_capacity(capacity);
        let reserved = vec_capacity(&slots);
        let heap = Heap {
            slots,
            free: Vec::new(),
            live: 0,
            worklist: Vec::new(),
            marks: Vec::new(),
            traced: Ghost(Seq::empty()),
            reserved,
        };
        proof {
            heap.lemma_view_len();
            assert(heap@ =~= Seq::<(Option<T>, u32)>::empty());
            assert(heap.live_set() =~= Set::<int>::empty());
            heap.lemma_occupied_is_live_set();
        }
        heap
    }

    /// Allocates `value` and returns a handle to it, reusing the most recently
    /// freed slot when there is one and appending a fresh slot otherwise.
    /// Fails with [`GcError::CapacityExhausted`], leaving the heap unchanged, when
    /// no slot is free and every `u32` index is already in use.
    pub fn try_alloc(&mut self, value: T) -> (result: Result<Gc, GcError>)
        requires
            old(self).wf(),
        ensures
            final(self).wf(),
            old(self).alloc_fails() ==> {
                &&& result == Err::<Gc, GcError>(GcError::CapacityExhausted)
                &&& final(self)@ == old(self)@
                &&& final(self).free_list() == old(self).free_list()
            },
            !old(self).alloc_fails() ==> (result matches Ok(handle) && old(self).allocates(
                value,
                *final(self),
                handle,
            )),
            result is Err <==> old(self).alloc_fails(),
            old(self).free_list().len() > 0 || result is Err ==> final(self).reserved_capacity()
                == old(self).reserved_capacity(),
            result matches Ok(handle) ==> {
                &&& !old(self).is_live(handle)
                &&& final(self).lookup(handle) == Some(value)
                &&& final(self).live_count() == old(self).live_count() + 1
            },
    {
        let ghost stored = value;
        proof {
            self.lemma_view_len();
            self.lemma_wf_shape();
            self.lemma_live_counter();
        }
        if self.free.len() > 0 {
            let index = self.free.pop().unwrap();
            proof {
                assert(old(self).free@.contains(index));
            }
            let generation = self.slots[index as usize].generation;
            proof {
                old(self).lemma_live_set_misses(index as int);
            }
            self.slots[index as usize] = Slot { value: Some(value), generation };
            assert(self.live < self.slots.len());
            self.live = self.live + 1;
            proof {
                self.lemma_view_len();
                assert(self@ =~= old(self)@.update(index as int, (Some(value), generation)));
                assert(self.free@ =~= old(self).free@.drop_last());
                assert(self.live_set() =~= old(self).live_set().insert(index as int));
                self.lemma_occupied_is_live_set();
                assert forall|i: int|
                    0 <= i < self.slots@.len() && self.slots@[i].value is None && !self.free@.contains(
                    i as u32,
                ) implies self.slots@[i].generation == u32::MAX by {
                    if old(self).free@.contains(i as u32) {
                        let k = choose|k: int| 0 <= k < old(self).free@.len() && old(self).free@[k] == i as u32;
                        if k != old(self).free@.len() - 1 {
                            assert(self.free@[k] == i as u32);
                        }
                    }
                }
            }
            let handle = Gc::new(index, generation);
            proof {
                assert(old(self).allocates(stored, *self, handle));
                crate::laws::lemma_alloc_effects(*old(self), stored, *self, handle);
            }
            return Ok(handle);
        }
        if self.slots.len() > 4294967295usize {
            return Err(GcError::CapacityExhausted);
        }
        let index = self.slots.len() as u32;
        self.slots.push(Slot { value: Some(value), generation: 0 });
        self.reserved = vec_capacity(&self.slots);
        assert(self.live < self.slots.len());
        self.live = self.live + 1;
        proof {
            self.lemma_view_len();
            assert(self@ =~= old(self)@.push((Some(value), 0u32)));
            assert(self.live_set() =~= old(self).live_set().insert(index as int));
            self.lemma_occupied_is_live_set();
        }
        let handle = Gc::new(index, 0);
        proof {
            assert(old(self).allocates(stored, *self, handle));
            crate::laws::lemma_alloc_effects(*old(self), stored, *self, handle);
        }
        Ok(handle)
    }

    /// Allocates `value` and returns a handle to it; the infallible counterpart of
    /// [`try_alloc`](Heap::try_alloc), for heaps whose slot space is not exhausted.
    pub fn allocate(&mut self, value: T) -> (handle: Gc)
        requires
            old(self).wf(),
            !old(self).alloc_fails(),
        ensures
            final(self).wf(),
            old(self).allocates(value, *final(self), handle),
            !old(self).is_live(handle),
            final(self).lookup(handle) == Some(value),
            final(self).live_count() == old(self).live_count() + 1,
            old(self).free_list().len() > 0 ==> final(self).reserved_capacity()
                == old(self).reserved_capacity(),
    {
        match self.try_alloc(value) {
            Ok(handle) => handle,
            Err(_) => {
                proof {
                    assert(false);
                }
                Gc::new(0, 0)
            }
        }
    }

    /// Borrows the object behind `handle`, or `None` when the handle names no live
    /// object: out of range, an empty slot, or a stale generation.
    pub fn get(&self, handle: Gc) -> (object: Option<&T>)
        ensures
            object is Some <==> self.is_live(handle),
            object is Some ==> *object.unwrap() == self.lookup(handle).unwrap(),
    {
        proof {
            self.lemma_view_len();
        }
        let i = handle.index() as usize;
        if i < self.slots.len() {
            let slot = &self.slots[i];
            if slot.generation == handle.generation() {
                slot.value.as_ref()
            } else {
                None
            }
        } else {
            None
        }
    }

    /// Mutably borrows the object behind `handle`, or `None` when the handle names
    /// no live object. Writing through the borrow replaces that object and nothing
    /// else.
    pub fn get_mut(&mut self, handle: Gc) -> (object: Option<&mut T>)
        requires
            old(self).wf(),
        ensures
            final(self).wf(),
            object is Some <==> old(self).is_live(handle),
            object is Some ==> {
                &&& *object.unwrap() == old(self).lookup(handle).unwrap()
                &&& final(self)@ == old(self)@.update(
                    handle.index() as int,
                    (Some(*final(object.unwrap())), handle.generation()),
                )
            },
            object is None ==> final(self)@ == old(self)@,
            final(self).free_list() == old(self).free_list(),
            final(self).reserved_capacity() == old(self).reserved_capacity(),
    {
        proof {
            self.lemma_view_len();
        }
        broadcast use lemma_occupied_rewrite;

        let i = handle.index() as usize;
        if i < self.slots.len() {
            let slot = &mut self.slots[i];
            if slot.generation == handle.generation() {
                slot.value.as_mut()
            } else {
                None
            }
        } else {
            None
        }
    }

    /// Whether `handle` names a live object; `get(handle).is_some()` without a borrow.
    pub fn contains(&self, handle: Gc) -> (live: bool)
        ensures
            live == self.is_live(handle),
    {
        proof {
            self.lemma_view_len();
        }
        let i = handle.index() as usize;
        if i < self.slots.len() {
            let slot = &self.slots[i];
            slot.generation == handle.generation() && slot.value.is_some()
        } else {
            false
        }
    }

    /// The number of live objects; slots awaiting reuse are not counted.
    pub fn len(&self) -> (count: usize)
        requires
            self.wf(),
        ensures
            count == self.live_count(),
            count == self.live_handles().len(),
    {
        proof {
            self.lemma_live_counter();
            self.lemma_live_handles();
        }
        self.live
    }

    /// Whether the heap holds no live objects.
    pub fn is_empty(&self) -> (empty: bool)
        requires
            self.wf(),
        ensures
            empty == (self.live_count() == 0),
            empty <==> forall|handle: Gc| !self.is_live(handle),
    {
        proof {
            self.lemma_live_counter();
            self.lemma_live_handles();
            if self.live_count() == 0 {
                self.live_handles().lemma_len0_is_empty();
                assert forall|handle: Gc| !self.is_live(handle) by {
                    if self.is_live(handle) {
                        assert(self.live_handles().contains(handle));
                    }
                }
            } else if forall|handle: Gc| !self.is_live(handle) {
                assert(self.live_handles() =~= Set::<Gc>::empty());
            }
        }
        self.live == 0
    }

    /// How many slots the backing store holds before it must grow: the slot
    /// store's capacity, at least the number of slots in use or on the free list.
    pub fn capacity(&self) -> (capacity: usize)
        ensures
            capacity >= self@.len(),
            self.wf() ==> capacity == self.reserved_capacity(),
    {
        proof {
            self.lemma_view_len();
        }
        if self.reserved >= self.slots.len() {
            self.reserved
        } else {
            vec_capacity(&self.slots)
        }
    }
}

/// Whether slot `i`'s bit is set in a bitset packed 64 slots to a word.
pub open spec fn mark_bit(marks: Seq<u64>, i: int) -> bool {
    (marks[i / 64] >> ((i % 64) as u64)) & 1u64 == 1u64
}

/// The number of 64-bit words that hold one bit for each of `n` slots.
pub open spec fn mark_words(n: int) -> int {
    if n % 64 == 0 {
        n / 64
    } else {
        n / 64 + 1
    }
}

proof fn lemma_bit_of_or(w: u64, b: u64, c: u64) by (bit_vector)
    requires
        b < 64,
        c < 64,
    ensures
        ((w | (1u64 << b)) >> c) & 1u64 == (if b == c {
            1u64
        } else {
            (w >> c) & 1u64
        }),
{
}

proof fn lemma_bit_of_zero(c: u64) by (bit_vector)
    requires
        c < 64,
    ensures
        (0u64 >> c) & 1u64 != 1u64,
{
}

proof fn lemma_word_and_bit(i: usize) by (bit_vector)
    ensures
        i >> 6usize == i / 64,
        i & 63usize == i % 64,
{
}

/// Reads the mark bit for slot `i`.
fn bit_is_set(marks: &Vec<u64>, i: usize) -> (set: bool)
    requires
        i / 64 < marks@.len(),
    ensures
        set == mark_bit(marks@, i as int),
{
    proof {
        lemma_word_and_bit(i);
    }
    (marks[i >> 6] >> ((i & 63) as u64)) & 1 == 1
}

/// Sets the mark bit for slot `i`, leaving every other bit as it was.
fn set_bit(marks: &mut Vec<u64>, i: usize)
    requires
        i / 64 < old(marks)@.len(),
    ensures
        final(marks)@.len() == old(marks)@.len(),
        mark_bit(final(marks)@, i as int),
        forall|j: int|
            0 <= j && j / 64 < old(marks)@.len() && j != i ==> mark_bit(final(marks)@, j)
                == mark_bit(old(marks)@, j),
{
    proof {
        lemma_word_and_bit(i);
    }
    let w = i >> 6;
    let word = marks[w] | (1u64 << ((i & 63) as u64));
    marks[w] = word;
    proof {
        lemma_bit_of_or(old(marks)@[w as int], (i % 64) as u64, (i % 64) as u64);
        assert forall|j: int|
            0 <= j && j / 64 < old(marks)@.len() && j != i implies mark_bit(marks@, j) == mark_bit(
            old(marks)@,
            j,
        ) by {
            if j / 64 == w as int {
                lemma_bit_of_or(old(marks)@[w as int], (i % 64) as u64, (j % 64) as u64);
            }
        }
    }
}

impl<T> Heap<T> {
    /// Resizes the mark bitset to one zeroed bit per slot.
    fn reset_marks(&mut self)
        ensures
            final(self).slots@ == old(self).slots@,
            final(self).free@ == old(self).free@,
            final(self).live == old(self).live,
            final(self).worklist@ == old(self).worklist@,
            final(self).traced == old(self).traced,
            final(self).reserved == old(self).reserved,
            final(self).marks@.len() == mark_words(old(self).slots@.len() as int),
            forall|k: int| 0 <= k < final(self).marks@.len() ==> final(self).marks@[k] == 0u64,
            forall|i: int| 0 <= i < old(self).slots@.len() ==> !mark_bit(final(self).marks@, i),
    {
        let n = self.slots.len();
        let words = n / 64 + if n % 64 == 0 {
            0
        } else {
            1
        };
        self.marks.clear();
        while self.marks.len() < words
            invariant
                self.slots@ == old(self).slots@,
                self.free@ == old(self).free@,
                self.live == old(self).live,
                self.worklist@ == old(self).worklist@,
                self.traced == old(self).traced,
                self.reserved == old(self).reserved,
                n == self.slots@.len(),
                words == mark_words(n as int),
                self.marks@.len() <= words,
                forall|k: int| 0 <= k < self.marks@.len() ==> self.marks@[k] == 0u64,
            decreases words - self.marks@.len(),
        {
            self.marks.push(0);
        }
        proof {
            assert forall|i: int| 0 <= i < n implies !mark_bit(self.marks@, i) by {
                lemma_bit_of_zero((i % 64) as u64);
            }
        }
    }
}

/// Slot `i` holds an object that a collection from `roots` reclaims.
pub open spec fn reclaims<T: Trace>(slots: Seq<(Option<T>, u32)>, roots: Seq<Gc>, i: int) -> bool {
    slots[i].0 is Some && !reachable(slots, roots, i)
}

/// The slots after a collection from `roots`: each reclaimed slot is emptied and
/// its generation advanced; every other slot is as it was.
pub open spec fn collected_slots<T: Trace>(slots: Seq<(Option<T>, u32)>, roots: Seq<Gc>) -> Seq<
    (Option<T>, u32),
> {
    Seq::new(
        slots.len(),
        |i: int|
            if reclaims(slots, roots, i) {
                reclaimed_slot(slots[i])
            } else {
                slots[i]
            },
    )
}

/// Slot `i` holds an object that a collection from `roots` reclaims, and the
/// slot's generation can still advance, so the slot goes back on the free list.
pub open spec fn recycles<T: Trace>(slots: Seq<(Option<T>, u32)>, roots: Seq<Gc>, i: int) -> bool {
    reclaims(slots, roots, i) && slots[i].1 < u32::MAX
}

/// The indices among the first `n` slots that a collection from `roots` returns to
/// the free list, in increasing order.
pub open spec fn recycled_indices<T: Trace>(
    slots: Seq<(Option<T>, u32)>,
    roots: Seq<Gc>,
    n: int,
) -> Seq<u32>
    decreases n,
{
    if n <= 0 {
        Seq::empty()
    } else if recycles(slots, roots, n - 1) {
        recycled_indices(slots, roots, n - 1).push((n - 1) as u32)
    } else {
        recycled_indices(slots, roots, n - 1)
    }
}

/// How many of the first `n` slots hold an object that a collection from `roots`
/// reclaims.
pub open spec fn reclaimed_count<T: Trace>(slots: Seq<(Option<T>, u32)>, roots: Seq<Gc>, n: int) -> nat
    decreases n,
{
    if n <= 0 {
        0
    } else if reclaims(slots, roots, n - 1) {
        reclaimed_count(slots, roots, n - 1) + 1
    } else {
        reclaimed_count(slots, roots, n - 1)
    }
}

impl<T: Trace> Heap<T> {
    /// Slot `i` is reachable from `roots` in this heap's object graph.
    pub open spec fn reachable(&self, roots: Seq<Gc>, i: int) -> bool {
        crate::graph::reachable(self@, roots, i)
    }

    /// The slots reachable from `roots`.
    pub open spec fn reachable_set(&self, roots: Seq<Gc>) -> Set<int> {
        Set::new(|i: int| self.reachable(roots, i))
    }

    /// `next` and `stats` are this heap and the report after a collection from
    /// `roots`: unreachable objects are reclaimed, and their slots appended, in
    /// increasing order, to the free list, except slots retired at generation
    /// `u32::MAX`.
    pub open spec fn collects(&self, roots: Seq<Gc>, next: Self, stats: CollectStats) -> bool {
        &&& next@ == collected_slots(self@, roots)
        &&& next.free_list() == self.free_list() + recycled_indices(self@, roots, self@.len() as int)
        &&& stats.freed == reclaimed_count(self@, roots, self@.len() as int)
        &&& stats.live == next.live_count()
    }
}

impl<T: Trace> Heap<T> {
    /// Mark phase: sets exactly the mark bits of the slots reachable from `roots`,
    /// visiting each reachable object once.
    fn mark_reachable(&mut self, roots: &[Gc])
        ensures
            final(self).slots@ == old(self).slots@,
            final(self).free@ == old(self).free@,
            final(self).live == old(self).live,
            final(self).reserved == old(self).reserved,
            final(self).marks@.len() == mark_words(old(self).slots@.len() as int),
            forall|i: int|
                0 <= i < old(self).slots@.len() ==> (mark_bit(final(self).marks@, i)
                    <==> old(self).reachable(roots@, i)),
            final(self).traced@.no_duplicates(),
            forall|i: int|
                final(self).traced@.contains(i) <==> (0 <= i < old(self).slots@.len()
                    && old(self).reachable(roots@, i)),
    {
        let ghost h: Heap<T> = *old(self);
        let ghost s: Seq<(Option<T>, u32)> = h@;
        proof {
            h.lemma_view_len();
        }
        let mut work: Vec<Gc> = Vec::new();
        core::mem::swap(&mut work, &mut self.worklist);
        work.clear();
        let mut k: usize = 0;
        while k < roots.len()
            invariant
                k <= roots@.len(),
                work@ == roots@.subrange(0, k as int),
                self.slots@ == h.slots@,
                self.free@ == h.free@,
                self.live == h.live,
                self.reserved == h.reserved,
            decreases roots@.len() - k,
        {
            work.push(roots[k]);
            k += 1;
            proof {
                assert(work@ =~= roots@.subrange(0, k as int));
            }
        }
        proof {
            assert(work@ =~= roots@);
        }
        self.reset_marks();
        let n = self.slots.len();
        let ghost mut marked: Set<int> = Set::empty();
        let ghost mut log: Seq<int> = Seq::empty();
        proof {
            assert forall|r: int|
                0 <= r < roots@.len() && live_in(s, #[trigger] roots@[r]) implies marked.contains(
                roots@[r].index() as int,
            ) || work@.contains(roots@[r]) by {
                assert(work@[r] == roots@[r]);
            }
            assert forall|k: int|
                0 <= k < work@.len() && live_in(s, #[trigger] work@[k]) implies reachable(s,
                roots@,
                work@[k].index() as int,
            ) by {
                lemma_root_path(s, roots@, k);
            }
            assert(Self::queue_sound(s, roots@, work@));
            assert(Self::roots_covered(s, roots@, marked, work@));
        }
        while work.len() > 0
            invariant
                self.slots@ == h.slots@,
                self.free@ == h.free@,
                self.live == h.live,
                self.reserved == h.reserved,
                n == h.slots@.len(),
                s.len() == n,
                forall|i: int|
                    0 <= i < n ==> #[trigger] s[i] == (h.slots@[i].value, h.slots@[i].generation),
                self.marks@.len() == mark_words(n as int),
                marked.finite(),
                marked.len() <= n,
                forall|i: int| marked.contains(i) ==> 0 <= i < n && s[i].0 is Some,
                forall|i: int| 0 <= i < n ==> (mark_bit(self.marks@, i) <==> marked.contains(i)),
                forall|i: int| marked.contains(i) ==> reachable(s, roots@, i),
                log.no_duplicates(),
                forall|i: int| log.contains(i) <==> marked.contains(i),
                Self::queue_sound(s, roots@, work@),
                Self::roots_covered(s, roots@, marked, work@),
                Self::edges_covered(s, marked, work@),
            decreases n - marked.len(), work@.len(),
        {
            let ghost before = work@;
            let handle = work.pop().unwrap();
            proof {
                assert(work@ =~= before.drop_last());
                assert(handle == before[before.len() - 1]);
            }
            let i = handle.index() as usize;
            if i < self.slots.len() && self.slots[i].generation == handle.generation()
                && self.slots[i].value.is_some() && !bit_is_set(&self.marks, i) {
                let ghost popped = work@;
                proof {
                    assert(live_in(s, handle));
                    assert(reachable(s, roots@, i as int));
                }
                set_bit(&mut self.marks, i);
                let ghost old_marked = marked;
                proof {
                    marked = marked.insert(i as int);
                    vstd::set_lib::lemma_int_range(0, n as int);
                    assert(marked.subset_of(vstd::set_lib::set_int_range(0, n as int)));
                    vstd::set_lib::lemma_len_subset(marked, vstd::set_lib::set_int_range(0, n as int));
                    assert forall|j: int| 0 <= j < n implies (mark_bit(self.marks@, j) <==> marked.contains(j)) by {
                        assert(j < 64 * mark_words(n as int));
                    }
                }
                match self.slots[i].value.as_ref() {
                    Some(value) => {
                        proof {
                            let old_log = log;
                            log = log.push(i as int);
                            assert forall|x: int| log.contains(x) <==> marked.contains(x) by {
                                if x == i as int {
                                    assert(log[old_log.len() as int] == x);
                                } else if log.contains(x) {
                                    let k = choose|k: int| 0 <= k < log.len() && log[k] == x;
                                    assert(old_log[k] == x);
                                } else if old_log.contains(x) {
                                    let k = choose|k: int| 0 <= k < old_log.len() && old_log[k] == x;
                                    assert(log[k] == x);
                                }
                            }
                        }
                        let mut tracer = Tracer::new(work);
                        value.trace(&mut tracer);
                        work = tracer.into_worklist();
                        proof {
                            assert(*value == s[i as int].0.unwrap());
                            Self::lemma_mark_step(s, roots@, old_marked, i as int, before, popped, work@);
                        }
                    },
                    None => {
                        proof {
                            assert(false);
                        }
                    },
                }
            } else {
                proof {
                    Self::lemma_skip_step(s, roots@, marked, before, work@);
                }
            }
        }
        proof {
            assert forall|r: int|
                0 <= r < roots@.len() && live_in(s, #[trigger] roots@[r]) implies marked.contains(
                roots@[r].index() as int,
            ) by {
                assert(!work@.contains(roots@[r]));
            }
            assert forall|i: int, k: int|
                marked.contains(i) && 0 <= i < s.len() && s[i].0 is Some && 0 <= k
                    < s[i].0.unwrap().handles().len() && live_in(
                    s,
                    #[trigger] s[i].0.unwrap().handles()[k],
                ) implies marked.contains(s[i].0.unwrap().handles()[k].index() as int) by {
                assert(!work@.contains(s[i].0.unwrap().handles()[k]));
            }
            assert forall|i: int| 0 <= i < n implies (mark_bit(self.marks@, i) <==> reachable(s, roots@, i)) by {
                if reachable(s, roots@, i) {
                    let path = choose|path: Seq<int>| #[trigger] is_path(s, roots@, path) && path.last() == i;
                    lemma_closed_set_holds_reachable(s, roots@, marked, path);
                    assert(marked.contains(i));
                    assert(mark_bit(self.marks@, i));
                }
                if mark_bit(self.marks@, i) {
                    assert(marked.contains(i));
                    assert(reachable(s, roots@, i));
                }
            }
        }
        self.worklist = work;
        self.traced = Ghost(log);
    }
}

impl<T: Trace> Heap<T> {
    /// Every queued handle that names a live object names a reachable one.
    spec fn queue_sound(s: Seq<(Option<T>, u32)>, roots: Seq<Gc>, work: Seq<Gc>) -> bool {
        forall|k: int|
            0 <= k < work.len() && live_in(s, #[trigger] work[k]) ==> reachable(s,
                roots,
                work[k].index() as int,
            )
    }

    /// Every live root is marked or still queued.
    spec fn roots_covered(
        s: Seq<(Option<T>, u32)>,
        roots: Seq<Gc>,
        marked: Set<int>,
        work: Seq<Gc>,
    ) -> bool {
        forall|r: int|
            0 <= r < roots.len() && live_in(s, #[trigger] roots[r]) ==> marked.contains(
                roots[r].index() as int,
            ) || work.contains(roots[r])
    }

    /// Every live handle owned by a marked object is marked or still queued.
    spec fn edges_covered(s: Seq<(Option<T>, u32)>, marked: Set<int>, work: Seq<Gc>) -> bool {
        forall|i: int, k: int|
            marked.contains(i) && 0 <= k < s[i].0.unwrap().handles().len() && live_in(
                s,
                #[trigger] s[i].0.unwrap().handles()[k],
            ) ==> marked.contains(s[i].0.unwrap().handles()[k].index() as int) || work.contains(
                s[i].0.unwrap().handles()[k],
            )
    }

    /// Popping a handle that names nothing new keeps the mark-phase invariants.
    proof fn lemma_skip_step(
        s: Seq<(Option<T>, u32)>,
        roots: Seq<Gc>,
        marked: Set<int>,
        before: Seq<Gc>,
        after: Seq<Gc>,
    )
        requires
            before.len() > 0,
            after == before.drop_last(),
            !live_in(s, before.last()) || marked.contains(before.last().index() as int),
            Self::queue_sound(s, roots, before),
            Self::roots_covered(s, roots, marked, before),
            Self::edges_covered(s, marked, before),
        ensures
            Self::queue_sound(s, roots, after),
            Self::roots_covered(s, roots, marked, after),
            Self::edges_covered(s, marked, after),
    {
        assert forall|k: int| 0 <= k < after.len() && live_in(s, #[trigger] after[k]) implies reachable(s,
            roots,
            after[k].index() as int,
        ) by {
            assert(after[k] == before[k]);
        }
        assert forall|e: Gc| live_in(s, e) && #[trigger] before.contains(e) && !marked.contains(e.index() as int) implies after.contains(e) by {
            let k = choose|k: int| 0 <= k < before.len() && before[k] == e;
            if k == before.len() - 1 {
                Gc::lemma_equal_parts(e, before.last());
            } else {
                assert(after[k] == e);
            }
        }
    }

    /// Marking the object in slot `i` and queueing the handles it owns keeps the
    /// mark-phase invariants.
    proof fn lemma_mark_step(
        s: Seq<(Option<T>, u32)>,
        roots: Seq<Gc>,
        marked: Set<int>,
        i: int,
        before: Seq<Gc>,
        popped: Seq<Gc>,
        after: Seq<Gc>,
    )
        requires
            before.len() > 0,
            popped == before.drop_last(),
            before.last().index() == i,
            live_in(s, before.last()),
            0 <= i < s.len(),
            s[i].0 is Some,
            after == popped + s[i].0.unwrap().handles(),
            reachable(s, roots, i),
            Self::queue_sound(s, roots, before),
            Self::roots_covered(s, roots, marked, before),
            Self::edges_covered(s, marked, before),
        ensures
            Self::queue_sound(s, roots, after),
            Self::roots_covered(s, roots, marked.insert(i), after),
            Self::edges_covered(s, marked.insert(i), after),
    {
        let handles = s[i].0.unwrap().handles();
        let path = choose|path: Seq<int>| #[trigger] is_path(s, roots, path) && path.last() == i;
        assert forall|k: int| 0 <= k < after.len() && live_in(s, #[trigger] after[k]) implies reachable(s,
            roots,
            after[k].index() as int,
        ) by {
            if k < popped.len() {
                assert(after[k] == before[k]);
            } else {
                let e = k - popped.len();
                assert(handles[e] == after[k]);
                assert(names(s, handles[e], after[k].index() as int));
                assert(points_to(s, i, after[k].index() as int));
                lemma_path_extend(s, roots, path, after[k].index() as int);
            }
        }
        assert forall|e: Gc| live_in(s, e) && #[trigger] before.contains(e) && !marked.insert(i).contains(e.index() as int) implies after.contains(e) by {
            let k = choose|k: int| 0 <= k < before.len() && before[k] == e;
            if k == before.len() - 1 {
                assert(e.index() == i);
            } else {
                assert(after[k] == e);
            }
        }
        assert forall|j: int, k: int|
            marked.insert(i).contains(j) && 0 <= k < s[j].0.unwrap().handles().len() && live_in(
                s,
                #[trigger] s[j].0.unwrap().handles()[k],
            ) implies marked.insert(i).contains(s[j].0.unwrap().handles()[k].index() as int) || after.contains(
                s[j].0.unwrap().handles()[k],
            ) by {
            if j == i {
                assert(after[popped.len() + k] == handles[k]);
            } else {
                let e = s[j].0.unwrap().handles()[k];
                assert(marked.contains(s[j].0.unwrap().handles()[k].index() as int) || before.contains(e));
            }
        }
    }
}

/// A duplicate-free sequence of indices below `n` has at most `n` entries.
proof fn lemma_distinct_indices_bounded(s: Seq<u32>, n: int)
    requires
        s.no_duplicates(),
        forall|k: int| 0 <= k < s.len() ==> (s[k] as int) < n,
        0 <= n,
    ensures
        s.len() <= n,
{
    let ints = s.map_values(|x: u32| x as int);
    s.lemma_no_duplicates_injective(|x: u32| x as int);
    ints.unique_seq_to_set();
    let range = vstd::set_lib::set_int_range(0, n);
    vstd::set_lib::lemma_int_range(0, n);
    assert forall|i: int| #[trigger] ints.to_set().contains(i) implies range.contains(i) by {
        let k = choose|k: int| 0 <= k < ints.len() && ints[k] == i;
        assert(ints[k] == s[k] as int);
    }
    vstd::set_lib::lemma_len_subset(ints.to_set(), range);
}

impl<T: Trace> Heap<T> {
    /// Sweep phase: empties every occupied slot whose mark bit is clear and
    /// advances its generation; the slot goes back on the free list, unless its
    /// generation was already `u32::MAX`, in which case it is retired.
    fn sweep(&mut self, Ghost(roots): Ghost<Seq<Gc>>) -> (freed: usize)
        requires
            old(self).wf(),
            old(self).marks@.len() == mark_words(old(self).slots@.len() as int),
            forall|i: int|
                0 <= i < old(self).slots@.len() ==> (mark_bit(old(self).marks@, i)
                    <==> old(self).reachable(roots, i)),
        ensures
            final(self).wf(),
            final(self)@ == collected_slots(old(self)@, roots),
            final(self).free_list() == old(self).free_list() + recycled_indices(
                old(self)@,
                roots,
                old(self)@.len() as int,
            ),
            freed == reclaimed_count(old(self)@, roots, old(self)@.len() as int),
            final(self).live + freed == old(self).live,
            final(self).traced == old(self).traced,
            final(self).reserved == old(self).reserved,
    {
        let ghost h: Heap<T> = *old(self);
        proof {
            h.lemma_view_len();
            lemma_occupied_bounded(h.slots@);
        }
        let n = self.slots.len();
        let mut freed: usize = 0;
        let mut i: usize = 0;
        while i < n
            invariant
                n == self.slots@.len(),
                n == h.slots@.len(),
                n == h@.len(),
                n <= u32::MAX + 1,
                i <= n,
                forall|j: int|
                    0 <= j < n ==> #[trigger] h@[j] == (h.slots@[j].value, h.slots@[j].generation),
                self.marks@ == h.marks@,
                self.live == h.live,
                self.traced == h.traced,
                self.reserved == h.reserved,
                h.marks@.len() == mark_words(n as int),
                forall|j: int| 0 <= j < n ==> (mark_bit(h.marks@, j) <==> h.reachable(roots, j)),
                forall|j: int|
                    0 <= j < i ==> (#[trigger] self.slots@[j].value, self.slots@[j].generation)
                        == collected_slots(h@, roots)[j],
                forall|j: int| i <= j < n ==> #[trigger] self.slots@[j] == h.slots@[j],
                self.free@ == h.free@ + recycled_indices(h@, roots, i as int),
                freed == reclaimed_count(h@, roots, i as int),
                freed <= i,
                self.free@.no_duplicates(),
                forall|k: int|
                    0 <= k < self.free@.len() ==> {
                        &&& (self.free@[k] as int) < n
                        &&& self.slots@[self.free@[k] as int].value is None
                    },
                forall|j: int|
                    0 <= j < n && self.slots@[j].value is None && !self.free@.contains(j as u32)
                        ==> self.slots@[j].generation == u32::MAX,
                occupied_slots(self.slots@).finite(),
                occupied_slots(self.slots@).len() + freed == h.live,
            decreases n - i,
        {
            let marked = bit_is_set(&self.marks, i);
            if self.slots[i].value.is_some() && !marked {
                let generation = self.slots[i].generation;
                let ghost before = self.free@;
                let ghost prev = self.slots@;
                proof {
                    assert(!self.free@.contains(i as u32));
                    assert(reclaims(h@, roots, i as int));
                }
                if generation < u32::MAX {
                    self.slots[i] = Slot { value: None, generation: generation + 1 };
                    self.free.push(i as u32);
                    proof {
                        assert(recycled_indices(h@, roots, i + 1) == recycled_indices(h@, roots, i as int).push(i as u32));
                        assert(self.free@ =~= h.free@ + recycled_indices(h@, roots, i + 1));
                    }
                } else {
                    self.slots[i] = Slot { value: None, generation };
                    proof {
                        assert(recycled_indices(h@, roots, i + 1) == recycled_indices(h@, roots, i as int));
                    }
                }
                proof {
                    assert forall|j: int|
                        0 <= j < n && self.slots@[j].value is None && !self.free@.contains(j as u32)
                        implies self.slots@[j].generation == u32::MAX by {
                        if j == i {
                            if generation < u32::MAX {
                                assert(self.free@[self.free@.len() - 1] == i as u32);
                            }
                        } else if before.contains(j as u32) {
                            let k = choose|k: int| 0 <= k < before.len() && before[k] == j as u32;
                            assert(self.free@[k] == j as u32);
                        } else {
                            assert(prev[j] == self.slots@[j]);
                        }
                    }
                    if generation < u32::MAX {
                        lemma_distinct_indices_bounded(self.free@, n as int);
                    }
                    assert(occupied_slots(self.slots@) =~= occupied_slots(prev).remove(i as int));
                    assert(occupied_slots(prev).contains(i as int));
                }
                freed = freed + 1;
            } else {
                proof {
                    assert(!reclaims(h@, roots, i as int));
                    assert(recycled_indices(h@, roots, i + 1) == recycled_indices(h@, roots, i as int));
                }
            }
            i = i + 1;
        }
        self.live = self.live - freed;
        proof {
            self.lemma_view_len();
            assert(self@ =~= collected_slots(h@, roots));
        }
        freed
    }

    /// Reclaims every object not reachable from `roots` and reports what the pass
    /// did.
    ///
    /// Mark: starting from each root, the collector follows the handles every
    /// object reports through [`Trace::trace`], visiting each reachable object
    /// once, so cycles terminate. A root that names no live object is ignored.
    /// Every handle, root or reported, is read as a slot of this heap, whichever
    /// heap minted it. `traced` records the slots whose objects were traced:
    /// each reachable object exactly once, and no other.
    /// Sweep: every unmarked object is dropped, its slot's generation advanced, and
    /// its index pushed onto the free list; a slot whose generation is already
    /// `u32::MAX` is retired instead and never reused, so a stale handle never
    /// resolves again.
    pub fn collect(&mut self, roots: &[Gc]) -> (stats: CollectStats)
        requires
            old(self).wf(),
        ensures
            final(self).wf(),
            old(self).collects(roots@, *final(self), stats),
            stats.live + stats.freed == old(self).live_count(),
            final(self).traced().no_duplicates(),
            final(self).traced().to_set() == old(self).reachable_set(roots@),
            final(self).reserved_capacity() == old(self).reserved_capacity(),
    {
        self.mark_reachable(roots);
        proof {
            assert(self@ == old(self)@);
        }
        let freed = self.sweep(Ghost(roots@));
        proof {
            old(self).lemma_live_counter();
            self.lemma_live_counter();
            old(self).lemma_view_len();
            assert forall|i: int| #[trigger] self.traced().to_set().contains(i)
                <==> old(self).reachable_set(roots@).contains(i) by {
                if old(self).reachable(roots@, i) {
                    let path = choose|path: Seq<int>| #[trigger] is_path(old(self)@, roots@, path) && path.last() == i;
                    crate::graph::lemma_path_end_is_live(old(self)@, roots@, path);
                }
            }
            assert(self.traced().to_set() =~= old(self).reachable_set(roots@));
        }
        CollectStats { live: self.live, freed }
    }
}

impl<T> Default for Heap<T> {
    /// An empty heap, as [`Heap::new`].
    fn default() -> (heap: Self)
        ensures
            heap.wf(),
            heap@ == Seq::<(Option<T>, u32)>::empty(),
            heap.free_list() == Seq::<u32>::empty(),
    {
        Heap::new()
    }
}

/// The decimal digits of `n`, most significant first, as `{}` prints an unsigned
/// integer.
pub open spec fn decimal(n: nat) -> Seq<char>
    decreases n,
{
    if n < 10 {
        seq![digit(n)]
    } else {
        decimal(n / 10).push(digit(n % 10))
    }
}

/// The character of a decimal digit below ten.
pub open spec fn digit(d: nat) -> char {
    if d == 0 {
        '0'
    } else if d == 1 {
        '1'
    } else if d == 2 {
        '2'
    } else if d == 3 {
        '3'
    } else if d == 4 {
        '4'
    } else if d == 5 {
        '5'
    } else if d == 6 {
        '6'
    } else if d == 7 {
        '7'
    } else if d == 8 {
        '8'
    } else {
        '9'
    }
}

/// A decimal rendering is never empty, and has one digit exactly below ten.
proof fn lemma_decimal_len(n: nat)
    ensures
        decimal(n).len() >= 1,
        n < 10 <==> decimal(n).len() == 1,
    decreases n,
{
    if n >= 10 {
        lemma_decimal_len(n / 10);
    }
}

/// Distinct digits are distinct characters.
proof fn lemma_digit_injective(x: nat, y: nat)
    requires
        x < 10,
        y < 10,
        digit(x) == digit(y),
    ensures
        x == y,
{
}

/// Distinct numbers print differently: the decimal text determines the number.
pub proof fn lemma_decimal_injective(a: nat, b: nat)
    requires
        decimal(a) == decimal(b),
    ensures
        a == b,
    decreases a,
{
    lemma_decimal_len(a);
    lemma_decimal_len(b);
    if a >= 10 && b >= 10 {
        assert(decimal(a).drop_last() =~= decimal(a / 10));
        assert(decimal(b).drop_last() =~= decimal(b / 10));
        lemma_decimal_injective(a / 10, b / 10);
        assert(decimal(a).last() == digit(a % 10));
        assert(decimal(b).last() == digit(b % 10));
        lemma_digit_injective(a % 10, b % 10);
    } else if a < 10 && b < 10 {
        assert(decimal(a) == seq![digit(a)]);
        assert(decimal(b) == seq![digit(b)]);
        assert(seq![digit(a)][0] == digit(a));
        assert(seq![digit(b)][0] == digit(b));
        assert(decimal(a)[0] == decimal(b)[0]);
        lemma_digit_injective(a, b);
    }
}

/// The description of a heap's shape: `Heap { live: L, free: F, capacity: C }`.
pub open spec fn shape_description(live: nat, free: nat, capacity: nat) -> Seq<char> {
    "Heap { live: "@ + decimal(live) + ", free: "@ + decimal(free) + ", capacity: "@ + decimal(
        capacity,
    ) + " }"@
}

/// `n` printed in decimal.
///
/// Calls `ToString::to_string` on a `usize`, whose `Display` prints the decimal
/// digits with no sign and no padding.
#[verifier::external_body]
fn decimal_text(n: usize) -> (text: String)
    ensures
        text@ == decimal(n as nat),
{
    n.to_string()
}

/// A shape description names one capacity: two descriptions with the same live
/// and free counts are equal only when their capacities are.
pub proof fn lemma_shape_names_one_capacity(live: nat, free: nat, a: nat, b: nat)
    requires
        shape_description(live, free, a) == shape_description(live, free, b),
    ensures
        a == b,
{
    let prefix = "Heap { live: "@ + decimal(live) + ", free: "@ + decimal(free) + ", capacity: "@;
    let suffix = " }"@;
    let da = decimal(a);
    let db = decimal(b);
    assert(shape_description(live, free, a) =~= prefix + da + suffix);
    assert(shape_description(live, free, b) =~= prefix + db + suffix);
    assert(da.len() == db.len());
    assert(da =~= (prefix + da + suffix).subrange(prefix.len() as int, (prefix.len() + da.len()) as int));
    assert(db =~= (prefix + db + suffix).subrange(prefix.len() as int, (prefix.len() + db.len()) as int));
    lemma_decimal_injective(a, b);
}

impl<T> Heap<T> {
    /// A debugging description of the heap's shape: live objects, free slots and
    /// capacity, never its contents.
    pub fn to_debug_string(&self) -> (text: String)
        requires
            self.wf(),
        ensures
            exists|capacity: nat|
                capacity >= self@.len() && text@ == #[trigger] shape_description(
                    self.live_count(),
                    self.free_list().len(),
                    capacity,
                ),
            text@ == shape_description(
                self.live_count(),
                self.free_list().len(),
                self.reserved_capacity(),
            ),
    {
        proof {
            self.lemma_live_counter();
        }
        let capacity = self.capacity();
        let mut text = String::from_str("Heap { live: ");
        let live = decimal_text(self.live);
        text.append(live.as_str());
        text.append(", free: ");
        let free = decimal_text(self.free.len());
        text.append(free.as_str());
        text.append(", capacity: ");
        let reserved = decimal_text(capacity);
        text.append(reserved.as_str());
        text.append(" }");
        proof {
            reveal_strlit("Heap { live: ");
            reveal_strlit(", free: ");
            reveal_strlit(", capacity: ");
            reveal_strlit(" }");
            assert(text@ =~= shape_description(
                self.live_count(),
                self.free_list().len(),
                capacity as nat,
            ));
        }
        text
    }
}

} // verus!
