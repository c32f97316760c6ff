use hopper::deque::{Error, Queue};

#[test]
fn push_then_pop_keeps_order() {
    let mut q: Queue<u64, ()> = Queue::with_capacity(4);
    assert_eq!(q.capacity(), 4);
    assert_eq!(q.size(), 0);
    for i in 0..4u64 {
        let res = q.push_back(i);
        assert!(matches!(res, Ok(w) if w == (i == 0)));
    }
    assert_eq!(q.size(), 4);
    assert!(matches!(q.push_back(9), Err(Error::Full(9))));
    for i in 0..4u64 {
        assert_eq!(q.pop_front(), i);
    }
    assert_eq!(q.size(), 0);
}

#[test]
fn a_push_onto_an_empty_ring_asks_for_a_wake_up() {
    let mut q: Queue<u8, ()> = Queue::with_capacity(2);
    assert!(matches!(q.push_back(1), Ok(true)));
    assert!(matches!(q.push_back(2), Ok(false)));
    assert_eq!(q.pop_front(), 1);
    assert!(matches!(q.push_back(3), Ok(false)));
    assert_eq!(q.pop_front(), 2);
    assert_eq!(q.pop_front(), 3);
    assert!(matches!(q.push_back(4), Ok(true)));
}

#[test]
fn a_full_ring_hands_the_value_back_and_keeps_what_it_holds() {
    let mut q: Queue<String, ()> = Queue::with_capacity(1);
    assert!(q.push_back("kept".to_string()).is_ok());
    match q.push_back("refused".to_string()) {
        Err(Error::Full(value)) => assert_eq!(value, "refused"),
        Ok(_) => panic!("a full ring took a value"),
    }
    assert_eq!(q.size(), 1);
    assert_eq!(q.pop_front(), "kept");
}

#[test]
fn the_ring_wraps_around_many_times() {
    let mut q: Queue<usize, ()> = Queue::with_capacity(3);
    let mut next_in = 0;
    let mut next_out = 0;
    for round in 0..100 {
        for _ in 0..(round % 3) + 1 {
            if q.push_back(next_in).is_ok() {
                next_in += 1;
            }
        }
        assert!(q.size() <= q.capacity());
        for _ in 0..(round % 2) + 1 {
            if let Some(value) = q.try_pop_front() {
                assert_eq!(value, next_out);
                next_out += 1;
            }
        }
    }
    while let Some(value) = q.try_pop_front() {
        assert_eq!(value, next_out);
        next_out += 1;
    }
    assert_eq!(next_in, next_out);
    assert_eq!(q.size(), 0);
}

#[test]
fn try_pop_front_finds_nothing_in_an_empty_ring() {
    let mut q: Queue<u64, ()> = Queue::with_capacity(2);
    assert_eq!(q.try_pop_front(), None);
    assert!(q.push_back(5).is_ok());
    assert_eq!(q.try_pop_front(), Some(5));
    assert_eq!(q.try_pop_front(), None);
}

#[test]
fn pop_back_no_block_takes_back_the_last_push() {
    let mut q: Queue<u64, ()> = Queue::with_capacity(3);
    assert_eq!(q.pop_back_no_block(), None);
    assert!(q.push_back(1).is_ok());
    assert!(q.push_back(2).is_ok());
    assert!(q.push_back(3).is_ok());
    assert_eq!(q.pop_back_no_block(), Some(3));
    assert_eq!(q.size(), 2);
    assert!(q.push_back(4).is_ok());
    assert_eq!(q.pop_front(), 1);
    assert_eq!(q.pop_back_no_block(), Some(4));
    assert_eq!(q.pop_back_no_block(), Some(2));
    assert_eq!(q.pop_back_no_block(), None);
    assert_eq!(q.size(), 0);
    assert!(matches!(q.push_back(5), Ok(true)));
    assert_eq!(q.pop_front(), 5);
}

#[test]
fn the_state_at_the_back_starts_as_the_default_and_can_be_changed() {
    let mut q: Queue<u64, u32> = Queue::with_capacity(2);
    assert_eq!(*q.lock_back(), 0);
    *q.lock_back() = 7;
    assert!(q.push_back(1).is_ok());
    assert_eq!(*q.lock_back(), 7);
    assert_eq!(q.pop_front(), 1);
    assert_eq!(*q.lock_back(), 7);
    let _front = q.lock_front();
}
