use phashgen::cuckoo::CuckooHashTable;

#[test]
fn add_and_get_at_first_slot() {
    let mut t: CuckooHashTable<u32> = CuckooHashTable::new();
    assert_eq!(t.count(), 0);
    assert!(t.try_add(11, 5, 9));
    assert_eq!(t.count(), 1);
    assert_eq!(t.try_get(5), Some(&11));
    assert_eq!(t.try_get(9), None);
    assert_eq!(t.num_values_at_first(), 1);
    assert_eq!(t.num_values_at_second(), 0);
}

#[test]
fn occupied_first_slot_falls_back_to_second() {
    let mut t: CuckooHashTable<u32> = CuckooHashTable::new();
    assert!(t.try_add(1, 5, 9));
    assert!(t.try_add(2, 5, 7));
    assert_eq!(t.count(), 2);
    assert_eq!(t.try_get(5), Some(&1));
    assert_eq!(t.try_get(7), Some(&2));
    assert_eq!(t.num_values_at_first(), 1);
    assert_eq!(t.num_values_at_second(), 1);
}

#[test]
fn adding_the_same_entry_twice_keeps_the_table_consistent() {
    // the table does not special-case duplicates: the second copy lands in
    // the second-preference slot, and the counters stay consistent
    let mut t: CuckooHashTable<u32> = CuckooHashTable::new();
    assert!(t.try_add(77, 5, 9));
    assert!(t.try_add(77, 5, 9));
    assert_eq!(t.count(), 2);
    assert_eq!(t.try_get(5), Some(&77));
    assert_eq!(t.try_get(9), Some(&77));
    assert_eq!(t.num_values_at_first(), 1);
    assert_eq!(t.num_values_at_second(), 1);
    assert_eq!(t.num_values_at_first() + t.num_values_at_second(), t.count());
}

#[test]
fn two_step_eviction_chain_places_every_entry() {
    let mut t: CuckooHashTable<u32> = CuckooHashTable::new();
    assert!(t.try_add(100, 1, 2)); // at slot 1
    assert!(t.try_add(200, 2, 3)); // at slot 2
    // slot 1 is taken, so 300 displaces 200 out of slot 2, and 200 moves on
    // to its own second slot 3
    assert!(t.try_add(300, 1, 2));
    assert_eq!(t.count(), 3);
    assert_eq!(t.try_get(1), Some(&100));
    assert_eq!(t.try_get(2), Some(&300));
    assert_eq!(t.try_get(3), Some(&200));
    assert_eq!(t.num_values_at_first(), 1);
    assert_eq!(t.num_values_at_second(), 2);
}

#[test]
fn two_cycle_fails_and_leaves_the_table_unchanged() {
    let mut t: CuckooHashTable<u32> = CuckooHashTable::new();
    assert!(t.try_add(100, 1, 2)); // at slot 1
    assert!(t.try_add(200, 2, 1)); // at slot 2; its second slot is 1
    // 300 would displace 200 toward slot 1, which displaces 100 toward
    // slot 2 again: a cycle, so the call fails and nothing moves
    assert!(!t.try_add(300, 1, 2));
    assert_eq!(t.count(), 2);
    assert_eq!(t.try_get(1), Some(&100));
    assert_eq!(t.try_get(2), Some(&200));
    assert_eq!(t.try_get(3), None);
    assert_eq!(t.num_values_at_first(), 2);
    assert_eq!(t.num_values_at_second(), 0);
}

#[test]
fn failed_insert_can_be_retried_after_clear() {
    let mut t: CuckooHashTable<u32> = CuckooHashTable::new();
    assert!(t.try_add(100, 1, 2));
    assert!(t.try_add(200, 2, 1));
    assert!(!t.try_add(300, 1, 2));
    t.clear();
    assert_eq!(t.count(), 0);
    assert_eq!(t.num_values_at_first(), 0);
    assert_eq!(t.num_values_at_second(), 0);
    assert_eq!(t.try_get(1), None);
    assert!(t.try_add(300, 1, 2));
    assert_eq!(t.try_get(1), Some(&300));
}

#[test]
fn same_slot_for_both_preferences_detects_the_cycle() {
    let mut t: CuckooHashTable<u32> = CuckooHashTable::new();
    assert!(t.try_add(1, 4, 4));
    // both preferred slots of the next entry point at the same occupied slot
    assert!(!t.try_add(2, 4, 4));
    assert_eq!(t.count(), 1);
    assert_eq!(t.try_get(4), Some(&1));
}

#[test]
fn longer_eviction_chain_traces_correctly() {
    let mut t: CuckooHashTable<u32> = CuckooHashTable::new();
    assert!(t.try_add(1, 10, 11)); // at 10
    assert!(t.try_add(2, 11, 12)); // at 11
    assert!(t.try_add(3, 12, 13)); // at 12
    // chain: 4 -> 11 evicts 2 -> 12 evicts 3 -> 13 free
    assert!(t.try_add(4, 10, 11));
    assert_eq!(t.count(), 4);
    assert_eq!(t.try_get(10), Some(&1));
    assert_eq!(t.try_get(11), Some(&4));
    assert_eq!(t.try_get(12), Some(&2));
    assert_eq!(t.try_get(13), Some(&3));
    assert_eq!(t.num_values_at_first(), 1);
    assert_eq!(t.num_values_at_second(), 3);
}
