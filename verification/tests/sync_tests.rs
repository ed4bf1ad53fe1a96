use hotcold::sync::ChangeEvent;
use hotcold::sync::MirrorWrite;
use hotcold::sync::collect_touched;
use hotcold::table::Table;

/// A fresh mirror holding the table's current `idle ++ active` content.
fn snapshot(t: &Table<u32>) -> Vec<u32> {
    let mut m = t.idle_data.clone();
    m.extend_from_slice(&t.active_data);
    m
}

/// Applies every write; panics when one does not fit.
fn flush(mirror: &mut Vec<u32>, writes: &Vec<MirrorWrite<u32>>) {
    for w in writes {
        w.apply(mirror).expect("mirror too small");
    }
}

#[test]
fn collect_touched_keeps_inserts_and_modifies_once() {
    let events = vec![
        ChangeEvent::Inserted(3),
        ChangeEvent::Modified(5),
        ChangeEvent::Removed(4),
        ChangeEvent::Modified(3),
        ChangeEvent::Inserted(9),
    ];
    let touched = collect_touched(&events);
    assert_eq!(touched, vec![3, 5, 9]);
}

// Promotion correctness: three idle entries of lengths [2, 1, 3];
// touching the middle one promotes it to the active array at offset 0,
// and the two remaining idle entries close the gap.
#[test]
fn promotion_closes_the_idle_gap() {
    let mut t: Table<u32> = Table::new();
    let a = t.insert(vec![10, 11], 100, 0);
    let b = t.insert(vec![20], 100, 0);
    let c = t.insert(vec![30, 31, 32], 100, 0);
    let writes = t.tick(&vec![b], 5);

    let hb = t.handle(b);
    assert!(hb.active);
    assert_eq!(hb.partition_slot, 0);
    assert_eq!(hb.array_offset, 0);
    assert_eq!(hb.last_touch, 5);
    let ha = t.handle(a);
    let hc = t.handle(c);
    assert!(!ha.active && !hc.active);
    assert_eq!((ha.partition_slot, hc.partition_slot), (0, 1));
    assert_eq!((ha.array_offset, hc.array_offset), (0, 2));
    assert_eq!(t.idle_data, vec![10, 11, 30, 31, 32]);
    assert_eq!(t.active_data, vec![20]);

    // The partial idle write starts at the promoted entry's old offset.
    assert_eq!(writes.len(), 2);
    assert_eq!(writes[0].offset, 2);
    assert_eq!(writes[0].data, vec![30, 31, 32]);
    assert_eq!(writes[1].offset, 5);
    assert_eq!(writes[1].data, vec![20]);
}

// Touching the last idle entry detaches a tail: no idle byte changes, so
// only the active rewrite is issued.
#[test]
fn tail_promotion_skips_the_idle_write() {
    let mut t: Table<u32> = Table::new();
    t.insert(vec![1, 2], 100, 0);
    let b = t.insert(vec![3], 100, 0);
    let writes = t.tick(&vec![b], 1);
    assert_eq!(writes.len(), 1);
    assert_eq!(writes[0].offset, 2);
    assert_eq!(writes[0].data, vec![3]);
}

// Demotion batching: four active entries with a 100 ms grace period and
// pressures 400, 400, 300 and 0; the sum 1100 reaches the threshold of
// 1000, so exactly the three entries with positive pressure demote.
#[test]
fn demotion_evicts_exactly_the_positive_pressures() {
    let mut t: Table<u32> = Table::new();
    for i in 0..4u32 {
        t.insert(vec![i], 100, 0);
    }
    // Promote all four, then spread their last touches.
    t.tick(&vec![0, 1, 2, 3], 0);
    let w = t.tick(&vec![2], 100);
    assert!(w.is_empty());
    let w = t.tick(&vec![3], 400);
    assert!(w.is_empty());

    let writes = t.tick(&vec![], 500);
    assert!(!t.handle(0).active);
    assert!(!t.handle(1).active);
    assert!(!t.handle(2).active);
    assert!(t.handle(3).active);
    assert_eq!(t.idle_count, 3);
    assert_eq!(t.active_count, 1);
    assert!(!writes.is_empty());
}

// Below the threshold nothing demotes, no matter how stale an entry is.
#[test]
fn demotion_waits_for_the_threshold() {
    let mut t: Table<u32> = Table::new();
    t.insert(vec![7], 100, 0);
    t.tick(&vec![0], 0);
    // Pressure 899 stays below 1000.
    let writes = t.tick(&vec![], 999);
    assert!(writes.is_empty());
    assert!(t.handle(0).active);
}

// Buffer mirror equivalence: after any tick that moves entries, applying
// the returned writes to a mirror of the previous content yields exactly
// `idle ++ active`.
#[test]
fn mirror_matches_after_promotions_and_demotions() {
    let mut t: Table<u32> = Table::new();
    t.insert(vec![10, 11], 100, 0);
    t.insert(vec![20], 100, 0);
    t.insert(vec![30, 31, 32], 100, 0);
    t.insert(vec![40, 41], 100, 0);
    let mut mirror = snapshot(&t);

    // Promote two entries.
    let writes = t.tick(&vec![1, 3], 10);
    flush(&mut mirror, &writes);
    assert_eq!(mirror, snapshot(&t));

    // Let their pressure build up and demote them in one batch.
    let writes = t.tick(&vec![], 2000);
    flush(&mut mirror, &writes);
    assert_eq!(mirror, snapshot(&t));
    assert_eq!(t.active_count, 0);
}

// No-op tick: an empty touched set under zero total pressure issues no
// mirror write.
#[test]
fn empty_tick_writes_nothing() {
    let mut t: Table<u32> = Table::new();
    t.insert(vec![1], 100, 0);
    t.insert(vec![2, 3], 100, 0);
    let writes = t.tick(&vec![], 50);
    assert!(writes.is_empty());
}

// Touching an already-active entry moves nothing, so nothing is written.
#[test]
fn touching_an_active_entry_writes_nothing() {
    let mut t: Table<u32> = Table::new();
    t.insert(vec![1], 100, 0);
    t.tick(&vec![0], 0);
    let writes = t.tick(&vec![0], 10);
    assert!(writes.is_empty());
}

// Idempotent re-sync: a second tick with no new touches moves nothing
// and writes nothing.
#[test]
fn resync_is_idempotent() {
    let mut t: Table<u32> = Table::new();
    t.insert(vec![10, 11], 100, 0);
    t.insert(vec![20], 100, 0);
    t.insert(vec![30, 31, 32], 100, 0);
    let first = t.tick(&vec![1, 2], 40);
    assert!(!first.is_empty());

    let before = t.read_records(0);
    let again = t.tick(&vec![], 40);
    assert!(again.is_empty());
    assert_eq!(t.read_records(0), before);
    assert_eq!(t.idle_count, 1);
    assert_eq!(t.active_count, 2);

    // The same holds right after a demotion tick.
    let writes = t.tick(&vec![], 5000);
    assert!(!writes.is_empty());
    let again = t.tick(&vec![], 5000);
    assert!(again.is_empty());
}

#[test]
fn records_survive_every_move() {
    let mut t: Table<u32> = Table::new();
    let a = t.insert(vec![10, 11], 100, 0);
    let b = t.insert(vec![20], 100, 0);
    let c = t.insert(vec![30, 31, 32], 100, 0);
    t.tick(&vec![a, c], 0);
    assert_eq!(t.read_records(a), vec![10, 11]);
    assert_eq!(t.read_records(b), vec![20]);
    assert_eq!(t.read_records(c), vec![30, 31, 32]);
    t.tick(&vec![], 10_000);
    assert_eq!(t.read_records(a), vec![10, 11]);
    assert_eq!(t.read_records(b), vec![20]);
    assert_eq!(t.read_records(c), vec![30, 31, 32]);
}

// Capacity overflow is surfaced as a resizing requirement, never as a
// truncated write.
#[test]
fn undersized_mirror_is_refused() {
    let w = MirrorWrite { offset: 3, data: vec![1u32, 2, 3] };
    let mut mirror = vec![0u32; 4];
    let e = w.apply(&mut mirror).unwrap_err();
    assert_eq!(e.needed, 6);
    assert_eq!(e.have, 4);
    assert_eq!(mirror, vec![0, 0, 0, 0]);

    let mut big = vec![0u32; 6];
    assert!(w.apply(&mut big).is_ok());
    assert_eq!(big, vec![0, 0, 0, 1, 2, 3]);
}

// One tick can promote and demote at once; the mirror still comes out
// equal and the idle write starts at the lowest disturbed offset.
#[test]
fn combined_promotion_and_demotion_in_one_tick() {
    let mut t: Table<u32> = Table::new();
    let a = t.insert(vec![1, 2], 100, 0);
    let b = t.insert(vec![3], 100, 0);
    let c = t.insert(vec![4, 5], 100, 0);
    let d = t.insert(vec![6], 100, 0);
    let mut mirror = snapshot(&t);
    // Promote a and b; their pressure builds while c is touched much
    // later.
    let writes = t.tick(&vec![a, b], 0);
    flush(&mut mirror, &writes);
    let writes = t.tick(&vec![c], 2000);
    flush(&mut mirror, &writes);
    assert_eq!(mirror, snapshot(&t));
    // a and b demoted (pressure 1900 each), c promoted, d never moved.
    assert!(!t.handle(a).active);
    assert!(!t.handle(b).active);
    assert!(t.handle(c).active);
    assert!(!t.handle(d).active);
}

#[test]
fn promoting_every_idle_entry_empties_the_idle_array() {
    let mut t: Table<u32> = Table::new();
    t.insert(vec![1], 100, 0);
    t.insert(vec![2, 3], 100, 0);
    let writes = t.tick(&vec![0, 1], 0);
    assert_eq!(t.idle_count, 0);
    assert_eq!(t.idle_data, Vec::<u32>::new());
    assert_eq!(t.active_data, vec![2, 3, 1]);
    // Pure tail detachments need no idle write.
    assert_eq!(writes.len(), 1);
    assert_eq!(writes[0].offset, 0);
}

#[test]
fn duplicate_touches_count_once() {
    let mut t: Table<u32> = Table::new();
    t.insert(vec![1], 100, 0);
    t.insert(vec![2], 100, 0);
    let mut mirror = snapshot(&t);
    let writes = t.tick(&vec![0, 0, 0], 5);
    flush(&mut mirror, &writes);
    assert_eq!(mirror, snapshot(&t));
    assert!(t.handle(0).active);
    assert_eq!(t.active_data, vec![1]);
    assert_eq!(t.idle_data, vec![2]);
}

#[test]
fn ids_stay_stable_across_moves() {
    let mut t: Table<u32> = Table::new();
    let a = t.insert(vec![1], 100, 0);
    let b = t.insert(vec![2], 100, 0);
    t.tick(&vec![b], 0);
    let c = t.insert(vec![3], 100, 0);
    assert_eq!((a, b, c), (0, 1, 2));
    assert_eq!(t.read_records(a), vec![1]);
    assert_eq!(t.read_records(b), vec![2]);
    assert_eq!(t.read_records(c), vec![3]);
    // The new entry queues at the idle tail.
    assert!(!t.handle(c).active);
    assert_eq!(t.handle(c).partition_slot, 1);
}

#[test]
fn demotion_appends_in_reverse_registry_order() {
    let mut t: Table<u32> = Table::new();
    t.insert(vec![10], 100, 0);
    t.insert(vec![20], 100, 0);
    t.tick(&vec![0, 1], 0);
    // Promotion processes high slots first: entry 1 reaches the active
    // array before entry 0.
    assert_eq!(t.active_data, vec![20, 10]);
    t.tick(&vec![], 10_000);
    // Demotion mirrors that: the last active entry lands in the idle
    // array first.
    assert_eq!(t.idle_data, vec![10, 20]);
}
