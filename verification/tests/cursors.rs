use lib_spsc_ring::claim::{claim_read, claim_write, grant_read, grant_write, Claim};
use lib_spsc_ring::cursor::{advance, distance, room, slot_index};

#[test]
fn cursors_wrap_around() {
    assert_eq!(advance(usize::MAX, 1), 0);
    assert_eq!(advance(usize::MAX - 1, 4), 2);
    assert_eq!(advance(5, 3), 8);
    assert_eq!(distance(2, usize::MAX - 1), 4);
    assert_eq!(distance(7, 7), 0);
    assert_eq!(distance(8, 5), 3);
}

#[test]
fn slots_go_round_across_the_wrap() {
    assert_eq!(slot_index(0, 8), 0);
    assert_eq!(slot_index(13, 8), 5);
    assert_eq!(slot_index(usize::MAX, 8), 7);
    assert_eq!(slot_index(advance(usize::MAX, 1), 8), 0);
}

#[test]
fn room_is_what_the_queue_leaves() {
    assert_eq!(room(10, 7, 4), 1);
    assert_eq!(room(1, usize::MAX - 2, 4), 0);
    assert_eq!(room(3, 3, 4), 4);
}

#[test]
fn a_stale_cursor_is_enough_or_not() {
    assert!(matches!(claim_write(6, 4, 2, 4), Claim::Go(2)));
    assert!(matches!(claim_write(6, 4, 3, 4), Claim::Look));
    assert!(matches!(claim_write(6, 2, 0, 4), Claim::Go(0)));
    assert_eq!(grant_write(6, 5, 9, 4), 3);
    assert_eq!(grant_write(6, 5, 2, 4), 2);
    assert_eq!(grant_write(6, 2, 1, 4), 0);
    assert!(matches!(claim_read(4, 6, 2), Claim::Go(2)));
    assert!(matches!(claim_read(4, 6, 3), Claim::Look));
    assert!(matches!(claim_read(usize::MAX, 1, 2), Claim::Go(2)));
    assert_eq!(grant_read(4, 6, 5), 2);
    assert_eq!(grant_read(4, 6, 1), 1);
    assert_eq!(grant_read(4, 4, 1), 0);
}

#[test]
fn interleaved_ends_keep_off_each_others_slots() {
    const CAP: usize = 4;
    let start = usize::MAX - 5;
    let mut slots = [None; CAP];
    let (mut head, mut tail) = (start, start);
    let (mut cached_head, mut cached_tail) = (start, start);
    let mut sent: Vec<u32> = Vec::new();
    let mut received: Vec<u32> = Vec::new();
    for round in 0..40u32 {
        let want = (round % 3 + 1) as usize;
        let to_write = match claim_write(head, cached_tail, want, CAP) {
            Claim::Go(n) => n,
            Claim::Look => {
                cached_tail = tail;
                grant_write(head, cached_tail, want, CAP)
            }
        };
        let to_read = match claim_read(tail, cached_head, want) {
            Claim::Go(n) => n,
            Claim::Look => {
                cached_head = head;
                grant_read(tail, cached_head, want)
            }
        };
        for i in 0..to_write.max(to_read) {
            let write_slot = slot_index(advance(head, i), CAP);
            for k in i..to_read {
                assert!(i >= to_write || write_slot != slot_index(advance(tail, k), CAP));
            }
            if i < to_write {
                let elem = 10 * round + i as u32;
                slots[write_slot] = Some(elem);
                sent.push(elem);
            }
            if i < to_read {
                received.push(slots[slot_index(advance(tail, i), CAP)].unwrap());
            }
        }
        head = advance(head, to_write);
        tail = advance(tail, to_read);
        assert!(distance(head, tail) <= CAP);
    }
    assert!(received.len() > 20);
    assert_eq!(received, sent[..received.len()]);
    assert_eq!(sent.len() - received.len(), distance(head, tail));
}
