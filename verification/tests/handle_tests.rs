use std::collections::BTreeSet;

use gc_lang::{Gc, Heap, Trace, Tracer};

struct Leaf;
impl Trace for Leaf {
    fn trace(&self, _: &mut Tracer<'_>) {}
}

#[test]
fn test_handle_traits_do_not_depend_on_the_tag() {
    struct NotClone;
    impl Trace for NotClone {
        fn trace(&self, _: &mut Tracer<'_>) {}
    }
    let mut heap = Heap::<NotClone>::new();
    let handle = heap.allocate(NotClone);
    let copy = handle;
    assert_eq!(handle, copy);
    assert!(format!("{handle:?}").starts_with("Gc"));
}

#[test]
fn test_distinct_allocations_have_distinct_handles() {
    let mut heap = Heap::new();
    let handles: BTreeSet<_> = (0..16).map(|_| heap.allocate(Leaf)).collect();
    assert_eq!(handles.len(), 16);
}

#[test]
fn test_handle_is_eight_bytes_for_any_element() {
    assert_eq!(core::mem::size_of::<Gc>(), 8);
    let mut heap: Heap<[u128; 4]> = Heap::new();
    let handle = heap.allocate([0u128; 4]);
    assert_eq!(core::mem::size_of_val(&handle), 8);
}

#[test]
fn handles_order_by_index_then_generation() {
    let mut heap = Heap::new();
    let first = heap.allocate(Leaf);
    let second = heap.allocate(Leaf);
    assert!(first < second);
    assert_eq!((first.index(), first.generation()), (0, 0));
    assert_eq!((second.index(), second.generation()), (1, 0));
    let _ = heap.collect(&[second]);
    let reused = heap.allocate(Leaf);
    assert_eq!((reused.index(), reused.generation()), (0, 1));
    assert!(first < reused);
    assert!(reused < second);
}
