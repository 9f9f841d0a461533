use std::sync::atomic::{AtomicUsize, Ordering};

use statiki::ring::{claim_slot, filled_slot};

type RingBuffer<T> = statiki::ring::RingBuffer<T, 512>;

#[test]
fn ring_test_ring_buffer() {
    let mut queue = RingBuffer::<usize>::new();
    assert_eq!(queue.capacity(), 512);
    assert_eq!(queue.size(), 0);
    assert!(queue.is_empty());

    for idx in 0..queue.capacity() + 9 {
        queue.push(idx);
    }
    assert!(!queue.is_empty());
    assert_eq!(queue.size(), 512);

    for expected_item in 9..queue.capacity() + 9 {
        let value = queue.pop().expect("Value");
        assert_eq!(value, expected_item);
    }

    assert!(queue.pop().is_none());
    assert!(queue.is_empty());
    assert_eq!(queue.size(), 0);

    for idx in 0..queue.capacity() + 9 {
        queue.push(idx);
    }
    assert!(!queue.is_empty());

    queue.clear();
    assert!(queue.pop().is_none());
    assert!(queue.is_empty());
    assert_eq!(queue.size(), 0);

    for idx in 0..9 {
        queue.push(idx);
    }
    assert!(!queue.is_empty());
    assert_eq!(queue.size(), 9);
    for expected_item in 0..9 {
        let value = queue.pop().expect("Value");
        assert_eq!(value, expected_item);
    }

    for idx in 0..queue.capacity() {
        assert!(queue.try_push(idx).is_none());
    }
    assert!(!queue.is_empty());
    assert_eq!(queue.size(), 512);
    assert_eq!(queue.try_push(999), Some(999));
}

#[test]
fn ring_buffer_test_ring_buffer() {
    let mut queue = RingBuffer::<usize>::new();
    assert_eq!(queue.capacity(), 512);
    assert_eq!(queue.size(), 0);
    assert!(queue.is_empty());

    for idx in 0..queue.capacity() + 9 {
        queue.push(idx);
    }
    assert!(!queue.is_empty());
    assert_eq!(queue.size(), 512);

    for expected_item in 9..queue.capacity() + 9 {
        let value = queue.pop().expect("Value");
        assert_eq!(value, expected_item);
    }

    assert!(queue.pop().is_none());
    assert!(queue.is_empty());
    assert_eq!(queue.size(), 0);

    for idx in 0..queue.capacity() + 9 {
        queue.push(idx);
    }
    assert!(!queue.is_empty());

    queue.clear();
    assert!(queue.pop().is_none());
    assert!(queue.is_empty());
    assert_eq!(queue.size(), 0);

    for idx in 0..9 {
        queue.push(idx);
    }
    assert!(!queue.is_empty());
    assert_eq!(queue.size(), 9);
    for expected_item in 0..9 {
        let value = queue.pop().expect("Value");
        assert_eq!(value, expected_item);
    }
}

#[test]
fn full_flag_follows_size() {
    let mut queue = statiki::ring::RingBuffer::<u8, 4>::new();
    assert!(!queue.is_full());
    for v in 0..4 {
        assert_eq!(queue.try_push(v), None);
    }
    assert!(queue.is_full());
    assert_eq!(queue.try_push(4), Some(4));
    assert_eq!(queue.pop(), Some(0));
    assert!(!queue.is_full());
    assert_eq!(queue.size(), 3);
}

#[test]
fn eviction_is_one_for_one() {
    let mut queue = statiki::ring::RingBuffer::<u32, 4>::new();
    for v in 0..6 {
        queue.push(v);
        assert!(queue.size() <= 4);
    }
    assert_eq!(queue.size(), 4);
    let mut out = Vec::new();
    while let Some(v) = queue.pop() {
        out.push(v);
    }
    assert_eq!(out, vec![2, 3, 4, 5]);
}

#[test]
fn capacity_one_keeps_the_newest() {
    let mut queue = statiki::ring::RingBuffer::<char, 1>::new();
    queue.push('a');
    queue.push('b');
    assert_eq!(queue.size(), 1);
    assert_eq!(queue.try_push('c'), Some('c'));
    assert_eq!(queue.pop(), Some('b'));
    assert_eq!(queue.pop(), None);
}

#[test]
fn wraps_around_the_slots_many_times() {
    let mut queue = statiki::ring::RingBuffer::<u64, 8>::new();
    let mut next_in: u64 = 0;
    let mut next_out: u64 = 0;
    for round in 0..100u64 {
        for _ in 0..(round % 7 + 1) {
            if queue.try_push(next_in).is_none() {
                next_in += 1;
            }
        }
        for _ in 0..(round % 5 + 1) {
            match queue.pop() {
                Some(v) => {
                    assert_eq!(v, next_out);
                    next_out += 1;
                }
                None => assert!(queue.is_empty()),
            }
        }
        assert_eq!(queue.size() as u64, next_in - next_out);
    }
}

#[test]
fn ring_drops_each_element_once() {
    static COUNT: AtomicUsize = AtomicUsize::new(0);
    struct Counted {}

    impl Drop for Counted {
        fn drop(&mut self) {
            COUNT.fetch_add(1, Ordering::Relaxed);
        }
    }

    let mut queue = statiki::ring::RingBuffer::<Counted, 4>::new();
    for _ in 0..6 {
        queue.push(Counted {});
    }
    // two were evicted
    assert_eq!(COUNT.load(Ordering::Relaxed), 2);
    drop(queue.pop());
    assert_eq!(COUNT.load(Ordering::Relaxed), 3);
    queue.clear();
    assert_eq!(COUNT.load(Ordering::Relaxed), 6);
    queue.push(Counted {});
    drop(queue);
    assert_eq!(COUNT.load(Ordering::Relaxed), 7);
}

#[test]
fn claim_slot_masks_the_write_cursor() {
    assert_eq!(claim_slot::<8>(0, 0), Some(0));
    assert_eq!(claim_slot::<8>(13, 6), Some(5));
    assert_eq!(claim_slot::<8>(14, 6), None);
    assert_eq!(claim_slot::<8>(2, usize::MAX - 2), Some(2));
    assert_eq!(claim_slot::<8>(5, usize::MAX - 2), None);
}

#[test]
fn filled_slot_masks_the_read_cursor() {
    assert_eq!(filled_slot::<8>(6, 6), None);
    assert_eq!(filled_slot::<8>(6, 13), Some(6));
    assert_eq!(filled_slot::<8>(17, 20), Some(1));
    assert_eq!(filled_slot::<8>(usize::MAX, 3), Some(7));
}

#[test]
fn producer_and_consumer_steps_deliver_every_value_once() {
    let mut queue = RingBuffer::<usize>::new();
    let mut received = Vec::new();
    let mut step: usize = 0;
    for idx in 0..=520 {
        loop {
            step += 1;
            // the consumer only gets a turn every third step
            if step % 3 == 0 {
                if let Some(v) = queue.pop() {
                    received.push(v);
                }
            }
            if queue.try_push(idx).is_none() {
                break;
            }
        }
    }
    loop {
        match queue.pop() {
            Some(520) => {
                received.push(520);
                break;
            }
            Some(v) => received.push(v),
            None => panic!("520 was pushed but never came out"),
        }
    }
    assert_eq!(received, (0..=520).collect::<Vec<usize>>());
}
