//! The handle that names one object in a heap.

use vstd::prelude::*;

verus! {

/// A small, copyable handle to one object in a [`Heap`](crate::Heap): a slot index
/// plus the generation stamp the slot had when the object was allocated.
///
/// A slot's generation advances each time its object is reclaimed, and a slot
/// whose generation has reached `u32::MAX` is retired rather than reused, so a
/// handle to a reclaimed object never matches its slot again and resolves to
/// `None`. Handles
/// order by index first, then by generation. There is no public constructor: a
/// handle comes only from [`Heap::allocate`](crate::Heap::allocate) or
/// [`Heap::try_alloc`](crate::Heap::try_alloc).
#[derive(Clone, Copy, Debug, PartialEq, Eq, PartialOrd, Ord, Hash, Structural)]
pub struct Gc {
    index: u32,
    generation: u32,
}

impl Gc {
    /// The slot index this handle addresses.
    pub closed spec fn spec_index(self) -> u32 {
        self.index
    }

    /// The generation stamp this handle was minted with.
    pub closed spec fn spec_generation(self) -> u32 {
        self.generation
    }

    /// The handle with the given index and generation.
    pub closed spec fn from_parts(index: u32, generation: u32) -> Gc {
        Gc { index, generation }
    }

    /// A handle built from parts has those parts.
    pub proof fn lemma_from_parts(index: u32, generation: u32)
        ensures
            Gc::from_parts(index, generation).index() == index,
            Gc::from_parts(index, generation).generation() == generation,
    {
    }

    /// Wraps an `(index, generation)` pair; only a heap mints handles.
    pub(crate) fn new(index: u32, generation: u32) -> (handle: Gc)
        ensures
            handle.index() == index,
            handle.generation() == generation,
    {
        Gc { index, generation }
    }

    /// Returns the slot index this handle addresses.
    #[verifier::when_used_as_spec(spec_index)]
    pub fn index(self) -> (index: u32)
        ensures
            index == self.index(),
    {
        self.index
    }

    /// Returns the generation stamp this handle was minted with.
    #[verifier::when_used_as_spec(spec_generation)]
    pub fn generation(self) -> (generation: u32)
        ensures
            generation == self.generation(),
    {
        self.generation
    }

    /// Two handles are equal exactly when their index and generation are.
    pub proof fn lemma_equal_parts(a: Gc, b: Gc)
        ensures
            a == b <==> (a.index() == b.index() && a.generation() == b.generation()),
    {
    }
}

} // verus!
