use std::collections::{BTreeSet, VecDeque};

use gc_lang::{Gc, Heap, Trace, Tracer};

struct Node {
    edges: Vec<Gc>,
}

impl Trace for Node {
    fn trace(&self, tracer: &mut Tracer<'_>) {
        for &edge in &self.edges {
            tracer.mark(edge);
        }
    }
}

struct Leaf(u32);
impl Trace for Leaf {
    fn trace(&self, _: &mut Tracer<'_>) {}
}

/// A small deterministic generator, so graph shapes vary without an outside crate.
struct Lcg(u64);
impl Lcg {
    fn next(&mut self) -> u64 {
        self.0 = self.0.wrapping_mul(6364136223846793005).wrapping_add(1442695040888963407);
        self.0 >> 33
    }
}

struct GraphSpec {
    edges: Vec<Vec<usize>>,
    roots: BTreeSet<usize>,
}

fn graph(seed: u64) -> GraphSpec {
    let mut rng = Lcg(seed);
    let count = 1 + (rng.next() % 39) as usize;
    let edges = (0..count)
        .map(|_| {
            let k = (rng.next() % 7) as usize;
            (0..k).map(|_| (rng.next() as usize) % count).collect()
        })
        .collect();
    let roots = (0..count).filter(|_| rng.next() % 2 == 0).collect();
    GraphSpec { edges, roots }
}

fn reachable_set(spec: &GraphSpec) -> BTreeSet<usize> {
    let mut seen: BTreeSet<usize> = spec.roots.clone();
    let mut queue: VecDeque<usize> = spec.roots.iter().copied().collect();
    while let Some(n) = queue.pop_front() {
        for &t in &spec.edges[n] {
            if seen.insert(t) {
                queue.push_back(t);
            }
        }
    }
    seen
}

fn build(spec: &GraphSpec) -> (Heap<Node>, Vec<Gc>) {
    let mut heap = Heap::with_capacity(spec.edges.len());
    let handles: Vec<Gc> = (0..spec.edges.len())
        .map(|_| heap.allocate(Node { edges: Vec::new() }))
        .collect();
    for (i, targets) in spec.edges.iter().enumerate() {
        let edges = targets.iter().map(|&t| handles[t]).collect();
        heap.get_mut(handles[i]).expect("node is live").edges = edges;
    }
    (heap, handles)
}

#[test]
fn collect_keeps_exactly_the_reachable_set() {
    for seed in 0..200 {
        let spec = graph(seed);
        let reachable = reachable_set(&spec);
        let (mut heap, handles) = build(&spec);
        let roots: Vec<Gc> = spec.roots.iter().map(|&i| handles[i]).collect();
        let before = heap.len();
        let stats = heap.collect(&roots);
        assert_eq!(stats.live, reachable.len());
        assert_eq!(stats.freed, spec.edges.len() - reachable.len());
        assert_eq!(stats.live + stats.freed, before);
        assert_eq!(heap.len(), stats.live);
        for (i, &h) in handles.iter().enumerate() {
            assert_eq!(heap.get(h).is_some(), reachable.contains(&i), "seed {seed} node {i}");
            assert_eq!(heap.contains(h), heap.get(h).is_some());
        }
    }
}

#[test]
fn second_collection_frees_nothing_new() {
    for seed in 200..300 {
        let spec = graph(seed);
        let (mut heap, handles) = build(&spec);
        let roots: Vec<Gc> = spec.roots.iter().map(|&i| handles[i]).collect();
        let first = heap.collect(&roots);
        let after_first: Vec<bool> = handles.iter().map(|&h| heap.get(h).is_some()).collect();
        let second = heap.collect(&roots);
        let after_second: Vec<bool> = handles.iter().map(|&h| heap.get(h).is_some()).collect();
        assert_eq!(second.freed, 0);
        assert_eq!(first.live, second.live);
        assert_eq!(after_first, after_second);
    }
}

#[test]
fn allocation_leaves_other_handles_alone() {
    let mut heap = Heap::new();
    let a = heap.allocate(Leaf(1));
    let b = heap.allocate(Leaf(2));
    let _ = heap.collect(&[b]);
    let c = heap.allocate(Leaf(3));
    assert_eq!(c.index(), a.index());
    assert_ne!(c, a);
    assert!(heap.get(a).is_none());
    assert_eq!(heap.get(b).map(|l| l.0), Some(2));
    assert_eq!(heap.get(c).map(|l| l.0), Some(3));
    assert_eq!(heap.len(), 2);
}

#[test]
fn freed_slots_are_reused_most_recent_first() {
    let mut heap = Heap::new();
    let a = heap.allocate(Leaf(0));
    let b = heap.allocate(Leaf(1));
    let c = heap.allocate(Leaf(2));
    let stats = heap.collect(&[b]);
    assert_eq!(stats.freed, 2);
    // Slots 0 then 2 were freed, in that order; 2 is reused first.
    let d = heap.allocate(Leaf(3));
    let e = heap.allocate(Leaf(4));
    let f = heap.allocate(Leaf(5));
    assert_eq!((d.index(), d.generation()), (c.index(), 1));
    assert_eq!((e.index(), e.generation()), (a.index(), 1));
    assert_eq!((f.index(), f.generation()), (3, 0));
}

#[test]
fn dead_root_does_not_change_what_survives() {
    let mut heap = Heap::new();
    let dead = heap.allocate(Node { edges: Vec::new() });
    let _ = heap.collect(&[]);
    let child = heap.allocate(Node { edges: Vec::new() });
    let parent = heap.allocate(Node { edges: vec![child] });
    let orphan = heap.allocate(Node { edges: Vec::new() });
    let stats = heap.collect(&[dead, parent, dead]);
    assert_eq!(stats.live, 2);
    assert_eq!(stats.freed, 1);
    assert!(heap.contains(parent));
    assert!(heap.contains(child));
    assert!(!heap.contains(orphan));
    assert!(!heap.contains(dead));
}

#[test]
fn get_mut_rewrites_only_its_object() {
    let mut heap = Heap::new();
    let a = heap.allocate(Leaf(10));
    let b = heap.allocate(Leaf(20));
    heap.get_mut(a).expect("a is live").0 = 11;
    assert_eq!(heap.get(a).map(|l| l.0), Some(11));
    assert_eq!(heap.get(b).map(|l| l.0), Some(20));
    let _ = heap.collect(&[]);
    assert!(heap.get_mut(a).is_none());
}

#[test]
fn try_alloc_reports_the_handle_it_stores() {
    let mut heap = Heap::new();
    let h = heap.try_alloc(Leaf(9)).expect("the first slot is free");
    assert_eq!((h.index(), h.generation()), (0, 0));
    assert_eq!(heap.get(h).map(|l| l.0), Some(9));
}

#[test]
fn capacity_reserves_what_was_asked() {
    let heap: Heap<Leaf> = Heap::with_capacity(64);
    assert!(heap.capacity() >= 64);
    let mut grown: Heap<Leaf> = Heap::new();
    for i in 0..5 {
        let _ = grown.allocate(Leaf(i));
    }
    assert!(grown.capacity() >= 5);
}

#[test]
fn default_heap_is_empty() {
    let heap: Heap<Leaf> = Heap::default();
    assert!(heap.is_empty());
    assert_eq!(heap.len(), 0);
}

#[test]
fn debug_text_reports_the_counts() {
    let mut heap = Heap::with_capacity(8);
    let _ = heap.allocate(Leaf(0));
    let _ = heap.allocate(Leaf(1));
    let _ = heap.collect(&[]);
    let _ = heap.allocate(Leaf(2));
    let text = heap.to_debug_string();
    assert!(text.contains("live: 1"), "{text}");
    assert!(text.contains("free: 1"), "{text}");
}

#[test]
fn debug_text_is_the_shape_in_decimal() {
    let mut heap = Heap::with_capacity(12);
    for i in 0..12 {
        let _ = heap.allocate(Leaf(i));
    }
    let _ = heap.collect(&[]);
    let _ = heap.allocate(Leaf(99));
    let text = heap.to_debug_string();
    let prefix = "Heap { live: 1, free: 11, capacity: ";
    assert!(text.starts_with(prefix), "{text}");
    assert!(text.ends_with(" }"), "{text}");
    let capacity: usize = text[prefix.len()..text.len() - 2].parse().expect("a decimal count");
    assert_eq!(capacity, heap.capacity());
}

#[test]
fn foreign_handle_is_read_against_the_collecting_heap() {
    let mut other = Heap::new();
    let foreign = other.allocate(Leaf(0));
    let mut heap = Heap::new();
    let kept = heap.allocate(Node { edges: Vec::new() });
    let root = heap.allocate(Node { edges: vec![foreign] });
    // `foreign` was minted by `other`, but its index and generation name `kept` here.
    assert_eq!((foreign.index(), foreign.generation()), (kept.index(), kept.generation()));
    let stats = heap.collect(&[root]);
    assert_eq!(stats.live, 2);
    assert!(heap.contains(kept));
    assert!(other.contains(foreign));
}

#[test]
fn stale_handle_stays_dead_across_many_reuses() {
    let mut heap = Heap::new();
    let first = heap.allocate(Leaf(0));
    let _ = heap.collect(&[]);
    for round in 1..200u32 {
        let current = heap.allocate(Leaf(round));
        assert_eq!((current.index(), current.generation()), (first.index(), round));
        assert!(heap.get(first).is_none());
        assert!(!heap.contains(first));
        let _ = heap.collect(&[]);
    }
}

#[test]
fn value_survives_a_run_of_operations() {
    let mut heap = Heap::new();
    let keep = heap.allocate(Leaf(42));
    for i in 0..50 {
        let other = heap.allocate(Leaf(i));
        if let Some(leaf) = heap.get_mut(other) {
            leaf.0 += 1;
        }
        let _ = heap.collect(&[keep]);
        assert_eq!(heap.get(keep).map(|l| l.0), Some(42));
    }
    assert_eq!(heap.len(), 1);
}
