use lib_spsc_ring::{Error, SpscRing};

#[test]
fn dequeue() {
    let mut ring = SpscRing::<u32, 4>::new();
    let (mut p, mut c) = ring.split();
    p.enqueue(&mut ring, 42).unwrap();
    assert_eq!(c.dequeue(&mut ring).unwrap(), 42);
}

#[test]
fn dequeue_empty_returns_err() {
    let mut ring = SpscRing::<u32, 4>::new();
    let (_p, mut c) = ring.split();
    assert!(c.dequeue(&mut ring).is_err());
}

#[test]
fn dequeue_batch() {
    let mut ring = SpscRing::<u32, 8>::new();
    let (mut p, mut c) = ring.split();
    p.enqueue_batch(&mut ring, &[1, 2, 3, 4]);
    let d = c.dequeue_batch(&mut ring, 4);
    assert_eq!(d.len(), 4);
    assert_eq!(d.as_slice(), &[1, 2, 3, 4]);
}

#[test]
fn dequeue_batch_partial() {
    let mut ring = SpscRing::<u32, 8>::new();
    let (mut p, mut c) = ring.split();
    p.enqueue_batch(&mut ring, &[1, 2]);
    let d = c.dequeue_batch(&mut ring, 5);
    assert_eq!(d.len(), 2);
    assert_eq!(d.as_slice(), &[1, 2]);
}

#[test]
fn dequeue_batch_empty_queue() {
    let mut ring = SpscRing::<u32, 4>::new();
    let (_p, mut c) = ring.split();
    let d = c.dequeue_batch(&mut ring, 4);
    assert_eq!(d.len(), 0);
    assert!(d.is_empty());
}

#[test]
fn is_empty() {
    let mut ring = SpscRing::<u32, 4>::new();
    let (mut p, c) = ring.split();
    assert!(c.is_empty(&ring));
    p.enqueue(&mut ring, 1).unwrap();
    assert!(!c.is_empty(&ring));
}

#[test]
fn dequeue_batch_leaves_the_rest() {
    let mut ring = SpscRing::<u32, 8>::new();
    let (mut p, mut c) = ring.split();
    p.enqueue_batch(&mut ring, &[1, 2, 3, 4, 5]);
    assert_eq!(c.dequeue_batch(&mut ring, 0).len(), 0);
    assert_eq!(c.dequeue_batch(&mut ring, 2).as_slice(), &[1, 2]);
    assert_eq!(c.dequeue(&mut ring).unwrap(), 3);
    assert_eq!(c.dequeue_batch(&mut ring, 9).as_slice(), &[4, 5]);
    assert!(c.is_empty(&ring));
}

#[test]
fn empty_error_in_words() {
    let mut ring = SpscRing::<u32, 2>::new();
    let (_p, mut c) = ring.split();
    match c.dequeue(&mut ring) {
        Ok(_) => panic!("nothing was enqueued"),
        Err(e) => {
            assert!(matches!(e, Error::QueueIsEmpty));
            assert_eq!(e.message(), "spsc ring queue is empty");
        }
    }
}
