use gc_lang::{Gc, Heap, Trace, Tracer};

struct Node {
    edges: Vec<Gc>,
}

impl Node {
    fn leaf() -> Self {
        Self { edges: Vec::new() }
    }
    fn with(edges: Vec<Gc>) -> Self {
        Self { edges }
    }
}

impl Trace for Node {
    fn trace(&self, tracer: &mut Tracer<'_>) {
        for &edge in &self.edges {
            tracer.mark(edge);
        }
    }
}

#[test]
fn test_alloc_then_get_round_trips() {
    let mut heap = Heap::new();
    let handle = heap.allocate(Node::leaf());
    assert!(heap.get(handle).is_some());
    assert!(heap.contains(handle));
    assert_eq!(heap.len(), 1);
    assert!(!heap.is_empty());
}

#[test]
fn test_unreachable_object_is_collected() {
    let mut heap = Heap::new();
    let keep = heap.allocate(Node::leaf());
    let drop = heap.allocate(Node::leaf());
    let stats = heap.collect(&[keep]);
    assert_eq!(stats.freed, 1);
    assert_eq!(stats.live, 1);
    assert!(heap.get(keep).is_some());
    assert!(heap.get(drop).is_none());
}

#[test]
fn test_reachable_subgraph_survives() {
    let mut heap = Heap::new();
    let leaf = heap.allocate(Node::leaf());
    let mid = heap.allocate(Node::with(vec![leaf]));
    let root = heap.allocate(Node::with(vec![mid]));
    let orphan = heap.allocate(Node::leaf());

    let stats = heap.collect(&[root]);
    assert_eq!(stats.freed, 1);
    assert!(heap.get(root).is_some());
    assert!(heap.get(mid).is_some());
    assert!(heap.get(leaf).is_some());
    assert!(heap.get(orphan).is_none());
}

#[test]
fn test_cycle_with_no_root_is_collected() {
    let mut heap = Heap::new();
    let a = heap.allocate(Node::leaf());
    let b = heap.allocate(Node::with(vec![a]));
    heap.get_mut(a).expect("a is live").edges.push(b);
    let stats = heap.collect(&[]);
    assert_eq!(stats.freed, 2);
    assert!(heap.is_empty());
}

#[test]
fn test_self_cycle_is_collected() {
    let mut heap = Heap::new();
    let a = heap.allocate(Node::leaf());
    heap.get_mut(a).expect("a is live").edges.push(a);
    let stats = heap.collect(&[]);
    assert_eq!(stats.freed, 1);
    assert!(heap.get(a).is_none());
}

#[test]
fn test_freed_slot_is_reused_and_old_handle_goes_stale() {
    let mut heap = Heap::new();
    let first = heap.allocate(Node::leaf());
    let _ = heap.collect(&[]);
    assert!(heap.get(first).is_none());

    let second = heap.allocate(Node::leaf());
    assert_eq!(first.index(), second.index());
    assert_ne!(first.generation(), second.generation());
    assert!(heap.get(second).is_some());
    assert!(heap.get(first).is_none());
}

#[test]
fn test_capacity_does_not_grow_across_steady_state_loop() {
    let mut heap: Heap<Node> = Heap::with_capacity(4);
    let baseline = heap.capacity();
    for _ in 0..1000 {
        let a = heap.allocate(Node::leaf());
        let b = heap.allocate(Node::leaf());
        let _ = heap.allocate(Node::with(vec![a, b]));
        let _ = heap.collect(&[]);
    }
    assert!(heap.is_empty());
    assert_eq!(heap.capacity(), baseline, "slots should be reused, not grown");
}

#[test]
fn test_collect_twice_is_idempotent_on_survivors() {
    let mut heap = Heap::new();
    let root = heap.allocate(Node::leaf());
    let s1 = heap.collect(&[root]);
    let s2 = heap.collect(&[root]);
    assert_eq!(s1.live, 1);
    assert_eq!(s2.freed, 0);
    assert_eq!(s2.live, 1);
    assert!(heap.get(root).is_some());
}

#[test]
fn test_stale_root_is_ignored() {
    let mut heap = Heap::new();
    let gone = heap.allocate(Node::leaf());
    let _ = heap.collect(&[]);
    let live = heap.allocate(Node::leaf());
    let stats = heap.collect(&[gone, live]);
    assert_eq!(stats.live, 1);
    assert!(heap.get(live).is_some());
}

#[test]
fn test_out_of_range_handle_resolves_to_none() {
    let mut big = Heap::new();
    let mut last = big.allocate(Node::leaf());
    for _ in 0..50 {
        last = big.allocate(Node::leaf());
    }
    let small: Heap<Node> = Heap::new();
    assert!(small.get(last).is_none());
    assert!(!small.contains(last));
}

#[test]
fn test_empty_heap_collect_is_a_noop() {
    let mut heap: Heap<Node> = Heap::new();
    let stats = heap.collect(&[]);
    assert_eq!(stats.freed, 0);
    assert_eq!(stats.live, 0);
}

#[test]
fn test_debug_reports_shape_not_contents() {
    let mut heap = Heap::new();
    let _ = heap.allocate(Node::leaf());
    let text = heap.to_debug_string();
    assert!(text.contains("live"), "{text}");
    assert!(text.contains("capacity"), "{text}");
}
