use lib_spsc_ring::SpscRing;

#[test]
fn enqueue() {
    let mut ring = SpscRing::<u32, 4>::new();
    let (mut p, _c) = ring.split();
    assert!(p.enqueue(&mut ring, 1).is_ok());
    assert!(p.enqueue(&mut ring, 2).is_ok());
    assert!(p.enqueue(&mut ring, 3).is_ok());
    assert!(p.enqueue(&mut ring, 4).is_ok());
}

#[test]
fn enqueue_full_returns_value() {
    let mut ring = SpscRing::<u32, 2>::new();
    let (mut p, _c) = ring.split();
    p.enqueue(&mut ring, 10).unwrap();
    p.enqueue(&mut ring, 20).unwrap();
    assert_eq!(p.enqueue(&mut ring, 30), Err(30));
}

#[test]
fn enqueue_batch_fits() {
    let mut ring = SpscRing::<u32, 8>::new();
    let (mut p, _c) = ring.split();
    assert_eq!(p.enqueue_batch(&mut ring, &[1, 2, 3]), 3);
}

#[test]
fn enqueue_batch_partial() {
    let mut ring = SpscRing::<u32, 4>::new();
    let (mut p, _c) = ring.split();
    assert_eq!(p.enqueue_batch(&mut ring, &[1, 2, 3, 4, 5, 6]), 4);
}

#[test]
fn enqueue_batch_empty() {
    let mut ring = SpscRing::<u32, 4>::new();
    let (mut p, _c) = ring.split();
    assert_eq!(p.enqueue_batch(&mut ring, &[]), 0);
}

#[test]
fn is_full() {
    let mut ring = SpscRing::<u32, 4>::new();
    let (mut p, _c) = ring.split();
    assert!(!p.is_full(&ring));
    for i in 0..4 {
        p.enqueue(&mut ring, i).unwrap();
    }
    assert!(p.is_full(&ring));
}

#[test]
fn refused_element_leaves_the_queue_alone() {
    let mut ring = SpscRing::<String, 2>::new();
    let (mut p, mut c) = ring.split();
    p.enqueue(&mut ring, String::from("a")).unwrap();
    p.enqueue(&mut ring, String::from("b")).unwrap();
    assert_eq!(p.enqueue(&mut ring, String::from("c")), Err(String::from("c")));
    assert_eq!(c.dequeue(&mut ring).unwrap(), "a");
    assert_eq!(c.dequeue(&mut ring).unwrap(), "b");
    assert!(c.dequeue(&mut ring).is_err());
}

#[test]
fn stale_tail_is_looked_up_when_full() {
    let mut ring = SpscRing::<u32, 2>::new();
    let (mut p, mut c) = ring.split();
    p.enqueue(&mut ring, 1).unwrap();
    p.enqueue(&mut ring, 2).unwrap();
    assert_eq!(c.dequeue(&mut ring).unwrap(), 1);
    assert!(!p.is_full(&ring));
    p.enqueue(&mut ring, 3).unwrap();
    assert_eq!(p.enqueue(&mut ring, 4), Err(4));
    assert_eq!(c.dequeue(&mut ring).unwrap(), 2);
    assert_eq!(c.dequeue(&mut ring).unwrap(), 3);
}

#[test]
fn batch_fills_what_is_free() {
    let mut ring = SpscRing::<u32, 4>::new();
    let (mut p, mut c) = ring.split();
    assert_eq!(p.enqueue_batch(&mut ring, &[1, 2, 3]), 3);
    assert_eq!(c.dequeue(&mut ring).unwrap(), 1);
    assert_eq!(p.enqueue_batch(&mut ring, &[4, 5, 6]), 2);
    assert_eq!(p.enqueue_batch(&mut ring, &[6]), 0);
    assert_eq!(c.dequeue_batch(&mut ring, 8).as_slice(), &[2, 3, 4, 5]);
}
