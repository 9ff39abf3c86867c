use std::cell::{Cell, RefCell};
use std::rc::Rc;

use lib_spsc_ring::spsc;
use lib_spsc_ring::SpscRing;

#[derive(Debug)]
struct DropCounter(Rc<Cell<usize>>);

impl Drop for DropCounter {
    fn drop(&mut self) {
        self.0.set(self.0.get() + 1);
    }
}

#[test]
fn capacity_n_items() {
    let mut ring = SpscRing::<u32, 4>::new();
    let (mut p, _c) = ring.split();
    for i in 0..4 {
        p.enqueue(&mut ring, i).unwrap();
    }
    assert_eq!(p.enqueue(&mut ring, 99), Err(99));
}

#[test]
fn capacity_minimum() {
    let mut ring = SpscRing::<u32, 2>::new();
    let (mut p, mut c) = ring.split();
    p.enqueue(&mut ring, 1).unwrap();
    p.enqueue(&mut ring, 2).unwrap();
    assert_eq!(p.enqueue(&mut ring, 3), Err(3));
    assert_eq!(c.dequeue(&mut ring).unwrap(), 1);
    assert_eq!(c.dequeue(&mut ring).unwrap(), 2);
    assert!(c.dequeue(&mut ring).is_err());
}

#[test]
fn fifo_order() {
    let mut ring = SpscRing::<u32, 4>::new();
    let (mut p, mut c) = ring.split();
    for cycle in 0..100u32 {
        for i in 0..4 {
            p.enqueue(&mut ring, cycle * 10 + i).unwrap();
        }
        for i in 0..4 {
            assert_eq!(c.dequeue(&mut ring).unwrap(), cycle * 10 + i);
        }
    }
}

#[test]
fn drop_walks_unconsumed() {
    let drops = Rc::new(Cell::new(0));
    {
        let mut ring = SpscRing::<DropCounter, 4>::new();
        let (mut p, _c) = ring.split();
        p.enqueue(&mut ring, DropCounter(drops.clone())).unwrap();
        p.enqueue(&mut ring, DropCounter(drops.clone())).unwrap();
        p.enqueue(&mut ring, DropCounter(drops.clone())).unwrap();
        assert_eq!(drops.get(), 0);
    }
    assert_eq!(drops.get(), 3);
}

#[test]
fn drop_walks_after_partial_drain() {
    let drops = Rc::new(Cell::new(0));
    {
        let mut ring = SpscRing::<DropCounter, 4>::new();
        let (mut p, mut c) = ring.split();
        for _ in 0..4 {
            p.enqueue(&mut ring, DropCounter(drops.clone())).unwrap();
        }
        c.dequeue(&mut ring).unwrap();
        c.dequeue(&mut ring).unwrap();
        assert_eq!(drops.get(), 2);
    }
    assert_eq!(drops.get(), 4);
}

#[test]
fn drop_walks_across_slot_wrap() {
    let drops = Rc::new(Cell::new(0));
    {
        let mut ring = SpscRing::<DropCounter, 4>::new();
        let (mut p, mut c) = ring.split();
        for _ in 0..4 {
            p.enqueue(&mut ring, DropCounter(drops.clone())).unwrap();
        }
        for _ in 0..3 {
            c.dequeue(&mut ring).unwrap();
        }
        for _ in 0..3 {
            p.enqueue(&mut ring, DropCounter(drops.clone())).unwrap();
        }
    }
    assert_eq!(drops.get(), 7);
}

#[test]
fn drop_goes_from_oldest_to_newest() {
    struct Note(u32, Rc<RefCell<Vec<u32>>>);
    impl Drop for Note {
        fn drop(&mut self) {
            self.1.borrow_mut().push(self.0);
        }
    }
    let log = Rc::new(RefCell::new(Vec::new()));
    {
        let mut ring = SpscRing::<Note, 4>::new();
        let (mut p, mut c) = ring.split();
        for i in 0..4 {
            assert!(p.enqueue(&mut ring, Note(i, log.clone())).is_ok());
        }
        for _ in 0..3 {
            drop(c.dequeue(&mut ring).unwrap());
        }
        for i in 4..6 {
            assert!(p.enqueue(&mut ring, Note(i, log.clone())).is_ok());
        }
        assert_eq!(*log.borrow(), vec![0, 1, 2]);
    }
    assert_eq!(*log.borrow(), vec![0, 1, 2, 3, 4, 5]);
}

#[test]
fn handed_out_then_queued_is_what_was_accepted() {
    let mut ring = SpscRing::<u32, 4>::new();
    let (mut p, mut c) = ring.split();
    let mut accepted: Vec<u32> = Vec::new();
    let mut handed_out: Vec<u32> = Vec::new();
    for round in 0..50u32 {
        let items = [3 * round, 3 * round + 1, 3 * round + 2];
        let n = p.enqueue_batch(&mut ring, &items);
        accepted.extend_from_slice(&items[..n]);
        if p.enqueue(&mut ring, 1000 + round).is_ok() {
            accepted.push(1000 + round);
        }
        if round % 3 == 0 {
            handed_out.extend_from_slice(&c.dequeue_batch(&mut ring, 3));
        } else if let Ok(elem) = c.dequeue(&mut ring) {
            handed_out.push(elem);
        }
    }
    handed_out.extend_from_slice(&c.dequeue_batch(&mut ring, 4));
    assert!(c.is_empty(&ring));
    assert_eq!(handed_out, accepted);
}

#[test]
fn what_fits_comes_out_as_it_went_in() {
    let mut ring = SpscRing::<u32, 4>::new();
    let (mut p, mut c) = ring.split();
    p.enqueue(&mut ring, 9).unwrap();
    assert_eq!(c.dequeue(&mut ring).unwrap(), 9);
    assert_eq!(p.enqueue_batch(&mut ring, &[1, 2, 3, 4, 5, 6]), 4);
    assert_eq!(c.dequeue_batch(&mut ring, 4).as_slice(), &[1, 2, 3, 4]);
    assert!(c.is_empty(&ring));
}

#[test]
fn batch_equals_single_operations() {
    let items = [1u32, 2, 3, 4, 5, 6];
    let mut a = SpscRing::<u32, 4>::new();
    let (mut pa, mut ca) = a.split();
    let mut b = SpscRing::<u32, 4>::new();
    let (mut pb, mut cb) = b.split();
    let n = pa.enqueue_batch(&mut a, &items);
    let mut m = 0;
    for item in items {
        if pb.enqueue(&mut b, item).is_ok() {
            m += 1;
        }
    }
    assert_eq!(n, 4);
    assert_eq!(n, m);
    let batch = ca.dequeue_batch(&mut a, 3);
    for i in 0..3 {
        assert_eq!(cb.dequeue(&mut b).unwrap(), batch[i]);
    }
    assert_eq!(ca.dequeue(&mut a).unwrap(), 4);
    assert_eq!(cb.dequeue(&mut b).unwrap(), 4);
}

#[test]
fn split_again_goes_on_with_the_queue() {
    let mut ring = SpscRing::<u32, 4>::default();
    {
        let (mut p, mut c) = ring.split();
        p.enqueue_batch(&mut ring, &[1, 2, 3]);
        assert_eq!(c.dequeue(&mut ring).unwrap(), 1);
    }
    let (mut p, mut c) = ring.split();
    assert_eq!(p.enqueue_batch(&mut ring, &[4, 5, 6]), 2);
    assert_eq!(c.dequeue_batch(&mut ring, 4).as_slice(), &[2, 3, 4, 5]);
}

#[test]
fn ring_operations_keep_the_caches_they_are_given() {
    let mut ring = SpscRing::<u32, 2>::new();
    let mut cached_tail: usize = 0;
    let mut cached_head: usize = 0;
    assert!(spsc::is_empty(&ring));
    assert_eq!(ring.enqueue(7, &mut cached_tail), Ok(()));
    assert_eq!(ring.enqueue(8, &mut cached_tail), Ok(()));
    assert!(spsc::is_full(&ring));
    assert_eq!(ring.dequeue(&mut cached_head).unwrap(), 7);
    assert_eq!(cached_head, 2);
    assert_eq!(cached_tail, 0);
    assert_eq!(ring.enqueue(9, &mut cached_tail), Ok(()));
    assert_eq!(cached_tail, 1);
    assert_eq!(ring.enqueue(10, &mut cached_tail), Err(10));
    let mut dst: Vec<u32> = vec![6];
    assert_eq!(ring.dequeue_batch(&mut dst, 5, &mut cached_head), 2);
    assert_eq!(dst, vec![6, 8, 9]);
    assert_eq!(cached_head, 3);
    assert_eq!(ring.enqueue_batch(&[1, 2, 3], &mut cached_tail), 2);
    assert_eq!(cached_tail, 3);
}
