//! Identity and location metadata for one logical entry of a partitioned
//! table: its partition, slot, record offset, length, and touch recency.

use vstd::prelude::*;

verus! {

/// Location and recency metadata for one logical entry (a single record or a
/// contiguous run of records) of a partitioned table.
///
/// Within each partition the entries are dense: in slot order, each entry's
/// `array_offset` is the previous entry's `array_offset + length`.  The
/// table, not the handle, maintains that invariant; a handle is plain data.
#[derive(Clone, Copy, Debug, PartialEq, Eq, Structural)]
pub struct Handle {
    /// Ordinal position among the entries of this entry's current partition.
    pub partition_slot: usize,
    /// Offset, in records, into the partition's array where this entry's
    /// records begin.
    pub array_offset: usize,
    /// Number of contiguous records this entry owns; at least one.
    pub length: usize,
    /// Timestamp, in milliseconds, of the last touch of this entry.
    pub last_touch: u128,
    /// Minimum time, in milliseconds, a newly activated entry must remain
    /// active before it becomes eligible for demotion.
    pub idle_threshold: u128,
    /// Whether the entry currently lives in the active partition.
    pub active: bool,
}

impl Handle {
    /// Milliseconds elapsed since the last touch, by a clock reading `now`.
    /// A reading older than the last touch counts as no time elapsed.
    pub open spec fn spec_elapsed(self, now: u128) -> int {
        if now >= self.last_touch {
            now - self.last_touch
        } else {
            0
        }
    }

    /// Demotion-eligibility score: zero while the entry is idle or within
    /// its grace period, afterwards the time elapsed beyond the grace
    /// period.
    pub open spec fn spec_pressure(self, now: u128) -> int {
        if self.active && self.spec_elapsed(now) > self.idle_threshold {
            self.spec_elapsed(now) - self.idle_threshold
        } else {
            0
        }
    }

    /// Makes the handle of a freshly registered entry: idle, touched `now`,
    /// with the given location and grace period.
    pub fn new(
        partition_slot: usize,
        array_offset: usize,
        length: usize,
        idle_threshold: u128,
        now: u128,
    ) -> (h: Handle)
        ensures
            h == (Handle {
                partition_slot,
                array_offset,
                length,
                last_touch: now,
                idle_threshold,
                active: false,
            }),
    {
        Handle { partition_slot, array_offset, length, last_touch: now, idle_threshold, active: false }
    }

    /// The demotion-eligibility score of this entry at time `now`: it grows
    /// the longer an active entry goes untouched past its grace period, and
    /// is zero for idle entries.
    pub fn pressure(&self, now: u128) -> (p: u128)
        ensures
            p == self.spec_pressure(now),
    {
        if self.active && now >= self.last_touch {
            let elapsed: u128 = now - self.last_touch;
            if elapsed > self.idle_threshold {
                elapsed - self.idle_threshold
            } else {
                0
            }
        } else {
            0
        }
    }
}

} // verus!
