use chappie::common::ring_vec::RingVec;

fn collect_vec(rv: &RingVec<i32>) -> Vec<i32> {
    rv.iter().into_iter().copied().collect::<Vec<_>>()
}

#[test]
fn push_keeps_insertion_order_before_wrap() {
    let mut rv = RingVec::with_capacity(4);
    for v in 1..=4 {
        assert!(rv.push(v).is_none());
    }
    assert_eq!(rv.len(), 4);
    assert_eq!(rv.last(), Some(&4));
    assert_eq!(collect_vec(&rv), vec![1, 2, 3, 4]);
}

#[test]
fn push_overwrites_oldest_when_full() {
    let mut rv = RingVec::with_capacity(3);
    assert!(rv.push(1).is_none());
    assert!(rv.push(2).is_none());
    assert!(rv.push(3).is_none());
    assert_eq!(rv.push(4), Some(1));
    assert_eq!(collect_vec(&rv), vec![2, 3, 4]);
    assert_eq!(rv.get(0), Some(&2));
    assert_eq!(rv.get(2), Some(&4));
}

#[test]
fn push_front_replaces_tail_after_fill() {
    let mut rv = RingVec::with_capacity(3);
    for v in [100, 200, 300] {
        assert!(rv.push(v).is_none());
    }
    assert_eq!(rv.push_front(50), Some(300));
    assert_eq!(collect_vec(&rv), vec![50, 100, 200]);
}

#[test]
fn remove_handles_wrapped_start_positions() {
    let mut rv = RingVec::with_capacity(5);
    for v in 1..=5 {
        assert!(rv.push(v).is_none());
    }
    assert_eq!(rv.push(6), Some(1));
    assert_eq!(collect_vec(&rv), vec![2, 3, 4, 5, 6]);

    assert_eq!(rv.remove(1), Some(3));
    assert_eq!(collect_vec(&rv), vec![2, 4, 5, 6]);

    assert_eq!(rv.remove_last(), Some(6));
    assert_eq!(collect_vec(&rv), vec![2, 4, 5]);
}

#[test]
fn iter_mut_allows_in_place_updates_and_clear() {
    let mut rv = RingVec::with_capacity(3);
    for v in 1..=3 {
        assert!(rv.push(v).is_none());
    }
    for i in 0..rv.len() {
        let val = *rv.get(i).unwrap();
        assert_eq!(rv.replace(i, val + 10), Some(val));
    }
    assert_eq!(collect_vec(&rv), vec![11, 12, 13]);

    rv.clear();
    assert!(rv.is_empty());
    assert_eq!(rv.len(), 0);
    assert_eq!(rv.iter().len(), 0);
}

#[test]
fn ring_never_exceeds_capacity_and_out_of_range_is_none() {
    let mut rv = RingVec::with_capacity(2);
    assert_eq!(rv.get(0), None);
    assert_eq!(rv.last(), None);
    assert_eq!(rv.remove(0), None);
    for v in 0..10 {
        rv.push(v);
        assert!(rv.len() <= 2);
    }
    assert_eq!(collect_vec(&rv), vec![8, 9]);
    assert_eq!(rv.replace(5, 1), None);
}

#[test]
fn push_after_removing_head_slot_places_item_first() {
    // capacity 3: fill, wrap twice, then remove the oldest element while the head sits in
    // the last slot; the next push lands in front.
    let mut rv = RingVec::with_capacity(3);
    for v in 1..=5 {
        rv.push(v);
    }
    assert_eq!(collect_vec(&rv), vec![3, 4, 5]);
    assert_eq!(rv.remove(0), Some(3));
    assert_eq!(collect_vec(&rv), vec![4, 5]);
    assert_eq!(rv.push(6), None);
    assert_eq!(collect_vec(&rv), vec![6, 4, 5]);
}
