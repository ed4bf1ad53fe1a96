use hotcold::table::Table;

#[test]
fn empty_table() {
    let t: Table<u32> = Table::new();
    assert_eq!(t.record_count(), 0);
    assert_eq!(t.idle_len(), 0);
    assert_eq!(t.entry_count(), 0);
}

#[test]
fn insert_registers_idle_at_tail() {
    let mut t: Table<u32> = Table::new();
    let a = t.insert(vec![10, 11], 100, 7);
    let b = t.insert(vec![20], 100, 8);
    assert_eq!(a, 0);
    assert_eq!(b, 1);
    assert_eq!(t.idle_count, 2);
    assert_eq!(t.active_count, 0);
    assert_eq!(t.registry, vec![0, 1]);
    assert_eq!(t.idle_data, vec![10, 11, 20]);
    assert!(t.active_data.is_empty());
    let ha = t.handle(a);
    assert!(!ha.active);
    assert_eq!(ha.partition_slot, 0);
    assert_eq!(ha.array_offset, 0);
    assert_eq!(ha.length, 2);
    assert_eq!(ha.last_touch, 7);
    let hb = t.handle(b);
    assert_eq!(hb.partition_slot, 1);
    assert_eq!(hb.array_offset, 2);
    assert_eq!(hb.length, 1);
    assert_eq!(hb.last_touch, 8);
}

// Density invariant: in slot order, each entry starts where its
// predecessor ends, for any mix of lengths.
#[test]
fn idle_partition_stays_dense() {
    let mut t: Table<u8> = Table::new();
    t.insert(vec![1, 1], 0, 0);
    t.insert(vec![2], 0, 0);
    t.insert(vec![3, 3, 3], 0, 0);
    let mut expected_offset = 0;
    for slot in 0..3 {
        let id = t.registry[slot];
        let h = t.handle(id);
        assert_eq!(h.partition_slot, slot);
        assert_eq!(h.array_offset, expected_offset);
        expected_offset += h.length;
    }
    assert_eq!(expected_offset, t.idle_data.len());
}

// Registry/partition consistency: the registry is as long as both counts
// together, idle entries first in slot order, then active ones.
#[test]
fn registry_mirrors_partitions() {
    let mut t: Table<u8> = Table::new();
    for i in 0..5 {
        t.insert(vec![i], 0, 0);
    }
    t.promote(1);
    t.promote(3);
    assert_eq!(t.registry.len(), t.idle_count + t.active_count);
    assert_eq!(t.idle_count, 3);
    assert_eq!(t.active_count, 2);
    for p in 0..t.registry.len() {
        let h = t.handle(t.registry[p]);
        if p < t.idle_count {
            assert!(!h.active);
            assert_eq!(h.partition_slot, p);
        } else {
            assert!(h.active);
            assert_eq!(h.partition_slot, p - t.idle_count);
        }
    }
}

#[test]
fn read_records_returns_the_entry_content() {
    let mut t: Table<u32> = Table::new();
    let a = t.insert(vec![10, 11], 0, 0);
    let b = t.insert(vec![20, 21, 22], 0, 0);
    assert_eq!(t.read_records(a), vec![10, 11]);
    assert_eq!(t.read_records(b), vec![20, 21, 22]);
    t.promote(a);
    assert_eq!(t.read_records(a), vec![10, 11]);
    assert_eq!(t.read_records(b), vec![20, 21, 22]);
}

#[test]
fn write_records_overwrites_in_place() {
    let mut t: Table<u32> = Table::new();
    let a = t.insert(vec![10, 11], 0, 0);
    let b = t.insert(vec![20], 0, 0);
    t.write_records(a, &vec![90, 91]);
    assert_eq!(t.read_records(a), vec![90, 91]);
    assert_eq!(t.read_records(b), vec![20]);
    assert_eq!(t.idle_data, vec![90, 91, 20]);
    // A content update moves nothing between partitions.
    assert_eq!(t.idle_count, 2);
    assert_eq!(t.active_count, 0);
}

#[test]
fn record_mut_touches_the_single_record() {
    let mut t: Table<u32> = Table::new();
    let a = t.insert(vec![10, 11], 0, 0);
    let b = t.insert(vec![20], 0, 0);
    *t.record_mut(b) = 77;
    assert_eq!(t.read_records(b), vec![77]);
    assert_eq!(t.read_records(a), vec![10, 11]);
}

#[test]
fn record_counts_track_both_partitions() {
    let mut t: Table<u16> = Table::new();
    t.insert(vec![1, 2, 3], 0, 0);
    t.insert(vec![4], 0, 0);
    assert_eq!(t.record_count(), 4);
    assert_eq!(t.idle_len(), 4);
    t.promote(0);
    assert_eq!(t.record_count(), 4);
    assert_eq!(t.idle_len(), 1);
}
