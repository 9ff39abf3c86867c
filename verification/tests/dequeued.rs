use std::cell::Cell;
use std::rc::Rc;

use lib_spsc_ring::SpscRing;

#[derive(Debug)]
struct DropCounter(Rc<Cell<usize>>);

impl Drop for DropCounter {
    fn drop(&mut self) {
        self.0.set(self.0.get() + 1);
    }
}

#[test]
fn len_matches_dequeued() {
    let mut ring = SpscRing::<u32, 8>::new();
    let (mut p, mut c) = ring.split();
    p.enqueue_batch(&mut ring, &[1, 2, 3]);
    let d = c.dequeue_batch(&mut ring, 8);
    assert_eq!(d.len(), 3);
}

#[test]
fn as_slice_yields_items_in_order() {
    let mut ring = SpscRing::<u32, 8>::new();
    let (mut p, mut c) = ring.split();
    p.enqueue_batch(&mut ring, &[10, 20, 30, 40]);
    let d = c.dequeue_batch(&mut ring, 4);
    assert_eq!(d.as_slice(), &[10, 20, 30, 40]);
}

#[test]
fn deref_to_slice() {
    let mut ring = SpscRing::<u32, 8>::new();
    let (mut p, mut c) = ring.split();
    p.enqueue_batch(&mut ring, &[1, 2, 3]);
    let d = c.dequeue_batch(&mut ring, 4);
    let sum: u32 = d.iter().sum();
    assert_eq!(sum, 6);
}

#[test]
fn drop_drops_all_items() {
    let drops = Rc::new(Cell::new(0));
    let mut ring = SpscRing::<DropCounter, 4>::new();
    let (mut p, mut c) = ring.split();
    for _ in 0..3 {
        p.enqueue(&mut ring, DropCounter(drops.clone())).unwrap();
    }
    let d = c.dequeue_batch(&mut ring, 3);
    assert_eq!(d.len(), 3);
    drop(d);
    assert_eq!(drops.get(), 3);
}

#[test]
fn as_mut_slice_changes_the_batch() {
    let mut ring = SpscRing::<u32, 4>::new();
    let (mut p, mut c) = ring.split();
    p.enqueue_batch(&mut ring, &[1, 2, 3]);
    let mut d = c.dequeue_batch(&mut ring, 3);
    d.as_mut_slice()[0] = 9;
    d[2] = 7;
    assert_eq!(d.as_slice(), &[9, 2, 7]);
    let items: Vec<u32> = d.into_iter().collect();
    assert_eq!(items, vec![9, 2, 7]);
}

#[test]
fn yields_in_order() {
    let mut ring = SpscRing::<u32, 8>::new();
    let (mut p, mut c) = ring.split();
    p.enqueue_batch(&mut ring, &[100, 101, 102]);
    let d = c.dequeue_batch(&mut ring, 3);
    let mut it = d.into_iter();
    assert_eq!(it.next(), Some(100));
    assert_eq!(it.next(), Some(101));
    assert_eq!(it.next(), Some(102));
    assert_eq!(it.next(), None);
}

#[test]
fn next_back_reverses() {
    let mut ring = SpscRing::<u32, 8>::new();
    let (mut p, mut c) = ring.split();
    p.enqueue_batch(&mut ring, &[1, 2, 3]);
    let d = c.dequeue_batch(&mut ring, 3);
    let mut it = d.into_iter();
    assert_eq!(it.next_back(), Some(3));
    assert_eq!(it.next(), Some(1));
    assert_eq!(it.next_back(), Some(2));
    assert_eq!(it.next(), None);
}

#[test]
fn exact_size_iterator_len() {
    let mut ring = SpscRing::<u32, 8>::new();
    let (mut p, mut c) = ring.split();
    p.enqueue_batch(&mut ring, &[1, 2, 3, 4]);
    let d = c.dequeue_batch(&mut ring, 4);
    let mut it = d.into_iter();
    assert_eq!(it.len(), 4);
    it.next();
    assert_eq!(it.len(), 3);
    it.next_back();
    assert_eq!(it.len(), 2);
    assert_eq!(it.size_hint(), (2, Some(2)));
}

#[test]
fn drop_drops_remaining() {
    let drops = Rc::new(Cell::new(0));
    let mut ring = SpscRing::<DropCounter, 4>::new();
    let (mut p, mut c) = ring.split();
    for _ in 0..4 {
        p.enqueue(&mut ring, DropCounter(drops.clone())).unwrap();
    }
    let d = c.dequeue_batch(&mut ring, 4);
    let mut it = d.into_iter();
    drop(it.next().unwrap());
    drop(it.next().unwrap());
    assert_eq!(drops.get(), 2);
    drop(it);
    assert_eq!(drops.get(), 4);
}
