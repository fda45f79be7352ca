use genpool::Handle;
use genpool::Pool;

#[test]
fn round_trip_returns_value() {
    let mut pool: Pool<u32> = Pool::new();
    let h = pool.spawn(42);
    assert!(h.is_some());
    assert_eq!(pool.despawn(h), Some(42));
}

#[test]
fn despawn_invalidates_handle() {
    let mut pool: Pool<u32> = Pool::new();
    let h = pool.spawn(7);
    assert_eq!(pool.despawn(h), Some(7));
    assert_eq!(pool.despawn(h), None);
    assert_eq!(pool.borrow(h), None);
    assert!(pool.borrow_mut(h).is_none());
    assert_eq!(pool.despawn(h), None);
}

#[test]
fn none_handle_is_inert() {
    let none = Handle::none();
    assert!(none.is_none());
    assert!(!none.is_some());

    let mut pool: Pool<u32> = Pool::new();
    let h = pool.spawn(5);
    assert_eq!(pool.borrow(none), None);
    assert!(pool.borrow_mut(none).is_none());
    assert_eq!(pool.despawn(none), None);

    // Nothing was touched: the stored value is still there, alone.
    assert_eq!(pool.iter().len(), 1);
    assert_eq!(pool.borrow(h), Some(&5));
}

#[test]
fn freed_slot_reused_lifo() {
    let mut pool: Pool<String> = Pool::new();
    let h1 = pool.spawn(String::from("A"));
    assert_eq!(pool.despawn(h1), Some(String::from("A")));
    let h2 = pool.spawn(String::from("B"));
    assert_eq!(h2.index(), h1.index());
    assert_eq!(h2.generation(), h1.generation() + 1);
    assert_eq!(pool.borrow(h1), None);
    assert_eq!(pool.borrow(h2), Some(&String::from("B")));
}

#[test]
fn most_recently_freed_slot_reused_first() {
    let mut pool: Pool<u32> = Pool::new();
    let h0 = pool.spawn(10);
    let _h1 = pool.spawn(11);
    let h2 = pool.spawn(12);
    assert_eq!(pool.despawn(h0), Some(10));
    assert_eq!(pool.despawn(h2), Some(12));
    // The free stack now holds [0, 2]; the last freed index comes back first.
    let first = pool.spawn(20);
    assert_eq!(first.index(), h2.index());
    let second = pool.spawn(21);
    assert_eq!(second.index(), h0.index());
}

#[test]
fn iteration_yields_live_pairs() {
    let mut pool: Pool<u32> = Pool::new();
    let mut handles = Vec::new();
    for v in [10, 20, 30, 40, 50] {
        handles.push(pool.spawn(v));
    }
    assert_eq!(pool.despawn(handles[1]), Some(20));
    assert_eq!(pool.despawn(handles[3]), Some(40));

    let pairs = pool.iter();
    assert_eq!(pairs.len(), 3);
    let mut last_index = None;
    for (h, v) in &pairs {
        assert!(h.is_some());
        assert_eq!(pool.borrow(*h), Some(*v));
        if let Some(prev) = last_index {
            assert!(h.index() > prev);
        }
        last_index = Some(h.index());
    }
    let values: Vec<u32> = pairs.iter().map(|(_, v)| **v).collect();
    assert_eq!(values, vec![10, 30, 50]);
}

#[test]
fn out_of_range_handle_is_refused() {
    let mut donor: Pool<u32> = Pool::new();
    let _h0 = donor.spawn(1);
    let h_far = donor.spawn(2);

    let mut pool: Pool<u32> = Pool::new();
    assert_eq!(pool.borrow(h_far), None);
    assert!(pool.borrow_mut(h_far).is_none());
    assert_eq!(pool.despawn(h_far), None);
    // Storage did not grow: the pool is still empty and the next spawn
    // takes the very first slot.
    assert_eq!(pool.iter().len(), 0);
    let h = pool.spawn(9);
    assert_eq!(h.index(), 0);
}

#[test]
fn stale_generation_from_elsewhere_is_refused() {
    // Build a handle whose slot 0 carries generation 2.
    let mut donor: Pool<u32> = Pool::new();
    let g1 = donor.spawn(1);
    donor.despawn(g1);
    let g2 = donor.spawn(2);
    assert_eq!(g2.generation(), 2);

    // A pool whose slot 0 carries generation 1 refuses it.
    let mut pool: Pool<u32> = Pool::new();
    let h = pool.spawn(5);
    assert_eq!(h.generation(), 1);
    assert_eq!(pool.borrow(g2), None);
    assert_eq!(pool.despawn(g2), None);
    assert_eq!(pool.borrow(h), Some(&5));
}

#[test]
fn scenario_three_values_reuse() {
    let mut pool: Pool<String> = Pool::new();
    let h0 = pool.spawn(String::from("a"));
    let h1 = pool.spawn(String::from("b"));
    let h2 = pool.spawn(String::from("c"));
    assert_eq!(h0.index(), 0);
    assert_eq!(h1.index(), 1);
    assert_eq!(h2.index(), 2);
    assert_eq!(h0.generation(), 1);
    assert_eq!(h1.generation(), 1);
    assert_eq!(h2.generation(), 1);

    assert_eq!(pool.despawn(h1), Some(String::from("b")));
    let hd = pool.spawn(String::from("d"));
    assert_eq!(hd.index(), 1);
    assert_eq!(hd.generation(), 2);
    assert_eq!(pool.borrow(h1), None);
    assert_eq!(pool.borrow(hd), Some(&String::from("d")));
}

#[test]
fn borrow_mut_writes_through() {
    let mut pool: Pool<u32> = Pool::new();
    let h = pool.spawn(1);
    match pool.borrow_mut(h) {
        Some(v) => *v = 99,
        None => panic!("handle should be valid"),
    }
    assert_eq!(pool.borrow(h), Some(&99));
    assert_eq!(pool.despawn(h), Some(99));
}

#[test]
fn iter_mut_lists_live_handles() {
    let mut pool: Pool<u32> = Pool::new();
    let h0 = pool.spawn(100);
    let h1 = pool.spawn(200);
    let h2 = pool.spawn(300);
    assert_eq!(pool.despawn(h1), Some(200));

    let handles = pool.iter_mut();
    assert_eq!(handles, vec![h0, h2]);
    for h in handles {
        if let Some(v) = pool.borrow_mut(h) {
            *v += 1;
        }
    }
    assert_eq!(pool.borrow(h0), Some(&101));
    assert_eq!(pool.borrow(h2), Some(&301));
}

#[test]
fn empty_pool_has_nothing_to_yield() {
    let mut pool: Pool<u32> = Pool::new();
    assert_eq!(pool.iter().len(), 0);
    assert_eq!(pool.iter_mut().len(), 0);
}

#[test]
fn handles_compare_by_value() {
    let mut pool: Pool<u32> = Pool::new();
    let h = pool.spawn(8);
    let copy = h;
    assert_eq!(h, copy);
    let other = pool.spawn(9);
    assert_ne!(h, other);
    assert_ne!(h, Handle::none());
}

#[test]
fn generations_advance_per_slot() {
    let mut pool: Pool<u32> = Pool::new();
    let a1 = pool.spawn(1);
    let b1 = pool.spawn(2);
    pool.despawn(a1);
    let a2 = pool.spawn(3);
    pool.despawn(a2);
    let a3 = pool.spawn(4);
    // Slot 0 was freed twice, so its generation moved 1 -> 2 -> 3; slot 1
    // was never freed and still carries generation 1.
    assert_eq!(a3.index(), 0);
    assert_eq!(a3.generation(), 3);
    assert_eq!(b1.generation(), 1);
    assert_eq!(pool.borrow(b1), Some(&2));
    assert_eq!(pool.borrow(a2), None);
}

#[test]
fn spawn_count_matches_iteration_count() {
    let mut pool: Pool<u32> = Pool::new();
    let mut handles = Vec::new();
    for v in 0..8 {
        handles.push(pool.spawn(v));
    }
    for h in handles.iter().take(3) {
        assert!(pool.despawn(*h).is_some());
    }
    // 8 spawns, 3 despawns: exactly 5 pairs remain.
    assert_eq!(pool.iter().len(), 5);
}
