use aggregator::dense_map::DenseMap;
use aggregator::handles::FeedHandle;

fn h(id: u64) -> FeedHandle {
    FeedHandle { id }
}

fn live_handles(m: &DenseMap<FeedHandle>) -> Vec<FeedHandle> {
    let mut out = Vec::new();
    let mut cursor: usize = 0;
    while let Some(slot) = m.next_live(cursor) {
        out.push(m.get(slot).expect("next_live yields live slots"));
        cursor = slot + 1;
    }
    out
}

#[test]
fn insert_then_remove_leaves_no_trace() {
    let mut m = DenseMap::new();
    let slot = m.insert(h(42));
    m.remove(slot);
    assert_eq!(m.get(slot), None);
    assert!(live_handles(&m).is_empty());
}

#[test]
fn remove_one_of_n_leaves_n_minus_one() {
    let mut m = DenseMap::new();
    let mut slots = Vec::new();
    for id in 0..5u64 {
        slots.push(m.insert(h(id)));
    }
    // Remove a non-terminal handle.
    m.remove(slots[2]);
    let live = live_handles(&m);
    assert_eq!(live.len(), 4);
    assert!(!live.contains(&h(2)));
    for id in [0u64, 1, 3, 4] {
        assert!(live.contains(&h(id)));
    }
    // Removal shifted and renumbered nothing.
    for (id, &slot) in slots.iter().enumerate() {
        if id == 2 {
            assert_eq!(m.get(slot), None);
        } else {
            assert_eq!(m.get(slot), Some(h(id as u64)));
        }
    }
}

#[test]
fn remove_is_noop_when_already_freed_or_out_of_range() {
    let mut m = DenseMap::new();
    let s0 = m.insert(h(1));
    let s1 = m.insert(h(2));
    m.remove(s0);
    m.remove(s0); // already freed
    m.remove(999); // out of range
    assert_eq!(m.get(s1), Some(h(2)));
    assert_eq!(live_handles(&m), vec![h(2)]);
}

#[test]
fn freed_slot_is_reused_by_later_insertion() {
    let mut m = DenseMap::new();
    let s0 = m.insert(h(1));
    let s1 = m.insert(h(2));
    m.remove(s0);
    // The freed slot never shows up in iteration until reused...
    assert_eq!(live_handles(&m), vec![h(2)]);
    // ...and the most recently freed slot is the one reused.
    let s2 = m.insert(h(3));
    assert_eq!(s2, s0);
    assert_eq!(m.get(s2), Some(h(3)));
    assert_eq!(m.get(s1), Some(h(2)));
    assert_eq!(m.slot_count(), 2);
}

#[test]
fn iteration_is_restartable_and_in_slot_order() {
    let mut m = DenseMap::new();
    let s0 = m.insert(h(10));
    let s1 = m.insert(h(11));
    let s2 = m.insert(h(12));
    m.remove(s1);
    assert_eq!(m.next_live(0), Some(s0));
    assert_eq!(m.next_live(s0 + 1), Some(s2));
    assert_eq!(m.next_live(s2 + 1), None);
    assert_eq!(m.next_live(m.slot_count()), None);
}

#[test]
fn empty_registry_iterates_nothing() {
    let m: DenseMap<FeedHandle> = DenseMap::new();
    assert_eq!(m.slot_count(), 0);
    assert_eq!(m.next_live(0), None);
    assert_eq!(m.get(0), None);
}
