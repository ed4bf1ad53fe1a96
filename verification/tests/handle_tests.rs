use hotcold::handle::Handle;
use hotcold::table::Table;

fn three_entry_table() -> (Table<u32>, usize, usize, usize) {
    let mut t: Table<u32> = Table::new();
    let a = t.insert(vec![10, 11], 100, 0);
    let b = t.insert(vec![20], 100, 0);
    let c = t.insert(vec![30, 31, 32], 100, 0);
    (t, a, b, c)
}

#[test]
fn new_handle_starts_idle() {
    let h = Handle::new(3, 7, 2, 250, 40);
    assert_eq!(h.partition_slot, 3);
    assert_eq!(h.array_offset, 7);
    assert_eq!(h.length, 2);
    assert_eq!(h.last_touch, 40);
    assert_eq!(h.idle_threshold, 250);
    assert!(!h.active);
}

#[test]
fn pressure_is_zero_while_idle() {
    let h = Handle::new(0, 0, 1, 100, 0);
    assert_eq!(h.pressure(1_000_000), 0);
}

#[test]
fn pressure_is_zero_within_grace_period() {
    let mut h = Handle::new(0, 0, 1, 100, 50);
    h.active = true;
    assert_eq!(h.pressure(50), 0);
    assert_eq!(h.pressure(150), 0);
}

#[test]
fn pressure_grows_past_grace_period() {
    let mut h = Handle::new(0, 0, 1, 100, 50);
    h.active = true;
    assert_eq!(h.pressure(151), 1);
    assert_eq!(h.pressure(550), 400);
}

#[test]
fn pressure_tolerates_stale_clock() {
    let mut h = Handle::new(0, 0, 1, 100, 500);
    h.active = true;
    assert_eq!(h.pressure(10), 0);
}

#[test]
fn global_coordinates_without_adjust() {
    let (t, _, b, _) = three_entry_table();
    let h = t.handle(b);
    assert_eq!(h.global_slot(&t, false), 1);
    assert_eq!(h.global_offset(&t, false), 2);
    assert_eq!(h.record_range(&t, false), (2, 3));
}

#[test]
fn global_coordinates_adjust_only_active_entries() {
    let (mut t, _, b, _) = three_entry_table();
    t.promote(b);
    let h = t.handle(b);
    assert!(h.active);
    // Three idle entries became two; five idle records remain.
    assert_eq!(h.global_slot(&t, false), 0);
    assert_eq!(h.global_slot(&t, true), 2);
    assert_eq!(h.global_offset(&t, false), 0);
    assert_eq!(h.global_offset(&t, true), 5);
    assert_eq!(h.record_range(&t, true), (5, 6));
    // Idle entries never adjust.
    let ha = t.handle(0);
    assert_eq!(ha.global_offset(&t, true), 0);
    assert_eq!(ha.record_range(&t, true), (0, 2));
}
