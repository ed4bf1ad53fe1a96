//! The partitioned table: two dense record arrays (idle and active), an
//! arena of entry handles addressed by stable integer ids, and a registry
//! that mirrors the physical layout of both partitions.

use vstd::prelude::*;

use crate::handle::Handle;

verus! {

/// A table of fixed-layout records of type `T`, split into an idle and an
/// active partition.
///
/// Entries are addressed by the stable id returned from [`Table::insert`]:
/// the id indexes the `handles` arena and never changes, while the entry's
/// partition, slot and offset do.  The `registry` lists the ids in the
/// physical order of the two partitions: first the idle entries in slot
/// order, then the active entries in slot order.  Owners of an entry keep
/// only its id; the table owns all handle storage, so a registry entry can
/// never dangle.
#[derive(Debug, PartialEq)]
pub struct Table<T> {
    /// Records of the idle (rarely-touched) partition, dense in slot order.
    pub idle_data: Vec<T>,
    /// Records of the active (frequently-updated) partition, dense in slot
    /// order.
    pub active_data: Vec<T>,
    /// Arena of entry handles, indexed by entry id.
    pub handles: Vec<Handle>,
    /// Entry ids in physical order: idle entries in slot order, then active
    /// entries in slot order.
    pub registry: Vec<usize>,
    /// Number of idle entries.
    pub idle_count: usize,
    /// Number of active entries.
    pub active_count: usize,
}

impl<T> Table<T> {
    /// The handle of the entry at registry position `p`.
    pub open spec fn entry(self, p: int) -> Handle {
        self.handles@[self.registry@[p] as int]
    }

    /// The registry position of the entry with id `id`, computed from its
    /// own partition and slot.
    pub open spec fn position_of(self, id: int) -> int {
        if self.handles@[id].active {
            self.idle_count + self.handles@[id].partition_slot
        } else {
            self.handles@[id].partition_slot as int
        }
    }

    /// The registry lists every arena entry exactly once, idle entries
    /// first in slot order, then active entries in slot order.
    pub open spec fn valid_positions(self) -> bool {
        &&& self.registry@.len() == self.handles@.len()
        &&& self.idle_count + self.active_count == self.registry@.len()
        &&& forall|p: int|
            0 <= p < self.registry@.len() ==> (#[trigger] self.registry@[p]) < self.handles@.len()
        &&& forall|p: int|
            0 <= p < self.idle_count ==> !(#[trigger] self.entry(p)).active
                && self.entry(p).partition_slot == p
        &&& forall|p: int|
            self.idle_count <= p < self.registry@.len() ==> (#[trigger] self.entry(p)).active
                && self.entry(p).partition_slot == p - self.idle_count
        &&& forall|id: int|
            0 <= id < self.handles@.len() ==> 0 <= #[trigger] self.position_of(id)
                < self.registry@.len() && self.registry@[self.position_of(id)] == id
    }

    /// Each partition's array is dense: the first entry starts at offset
    /// zero, every further entry starts where its predecessor ends, and the
    /// last entry ends exactly at the array's length.
    pub open spec fn dense(self) -> bool {
        &&& (self.idle_count > 0 ==> self.entry(0).array_offset == 0)
        &&& forall|p: int, r: int|
            #![trigger self.entry(p), self.entry(r)]
            1 <= p < self.idle_count && r == p - 1 ==> self.entry(p).array_offset == self.entry(
                r,
            ).array_offset + self.entry(r).length
        &&& (self.idle_count > 0 ==> self.entry(self.idle_count - 1).array_offset + self.entry(
            self.idle_count - 1,
        ).length == self.idle_data@.len())
        &&& (self.idle_count == 0 ==> self.idle_data@.len() == 0)
        &&& (self.active_count > 0 ==> self.entry(self.idle_count as int).array_offset == 0)
        &&& forall|p: int, r: int|
            #![trigger self.entry(p), self.entry(r)]
            self.idle_count + 1 <= p < self.registry@.len() && r == p - 1 ==> self.entry(
                p,
            ).array_offset == self.entry(r).array_offset + self.entry(r).length
        &&& (self.active_count > 0 ==> self.entry(self.registry@.len() - 1).array_offset
            + self.entry(self.registry@.len() - 1).length == self.active_data@.len())
        &&& (self.active_count == 0 ==> self.active_data@.len() == 0)
    }

    /// Well-formedness: consistent registry, dense partitions, entry
    /// lengths of at least one record, and a total record count that a
    /// mirror buffer can hold.
    pub open spec fn wf(self) -> bool {
        &&& self.valid_positions()
        &&& self.dense()
        &&& forall|id: int|
            0 <= id < self.handles@.len() ==> (#[trigger] self.handles@[id]).length >= 1
        &&& self.idle_data@.len() + self.active_data@.len() <= usize::MAX
    }

    /// The records currently owned by the entry with id `id`, read from its
    /// partition's array.
    pub open spec fn handle_records(self, id: int) -> Seq<T> {
        let h = self.handles@[id];
        if h.active {
            self.active_data@.subrange(h.array_offset as int, h.array_offset + h.length)
        } else {
            self.idle_data@.subrange(h.array_offset as int, h.array_offset + h.length)
        }
    }

    /// The authoritative content that the mirror buffer must equal after
    /// synchronization: the idle array followed by the active array.
    pub open spec fn buffer_content(self) -> Seq<T> {
        self.idle_data@ + self.active_data@
    }

    /// Whether `h` describes a region that lies within this table's arrays.
    pub open spec fn binds(self, h: Handle) -> bool {
        if h.active {
            h.partition_slot < self.active_count && h.array_offset + h.length
                <= self.active_data@.len()
        } else {
            h.partition_slot < self.idle_count && h.array_offset + h.length
                <= self.idle_data@.len()
        }
    }

    /// Within one partition, entries at lower positions end no later than
    /// entries at higher positions begin.
    pub proof fn lemma_offsets_ordered(self, p: int, q: int)
        requires
            self.wf(),
            (0 <= p <= q < self.idle_count) || (self.idle_count <= p <= q
                < self.registry@.len()),
        ensures
            self.entry(p).array_offset + self.entry(p).length <= self.entry(q).array_offset
                + self.entry(q).length,
            p < q ==> self.entry(p).array_offset + self.entry(p).length <= self.entry(
                q,
            ).array_offset,
        decreases q - p,
    {
        if p < q {
            self.lemma_offsets_ordered(p, q - 1);
            assert(self.registry@[q] < self.handles@.len());
            assert(self.entry(q - 1).length >= 1) by {
                assert(self.handles@[self.registry@[q - 1] as int].length >= 1);
            }
        }
    }

    /// The region of the entry at registry position `p` lies within its
    /// partition's array.
    pub proof fn lemma_entry_in_bounds(self, p: int)
        requires
            self.wf(),
            0 <= p < self.registry@.len(),
        ensures
            self.binds(self.entry(p)),
    {
        if p < self.idle_count {
            self.lemma_offsets_ordered(p, self.idle_count - 1);
        } else {
            self.lemma_offsets_ordered(p, self.registry@.len() - 1);
        }
    }

    /// The arena handle of `id` is the registry entry at its position, and
    /// it lies within its partition's array.
    pub proof fn lemma_arena_binds(self, id: int)
        requires
            self.wf(),
            0 <= id < self.handles@.len(),
        ensures
            self.binds(self.handles@[id]),
            self.entry(self.position_of(id)) == self.handles@[id],
    {
        assert(self.registry@[self.position_of(id)] == id);
        self.lemma_entry_in_bounds(self.position_of(id));
    }

    /// The entry at registry position `p` is registered at exactly that
    /// position: ids and positions determine each other.
    pub proof fn lemma_position_unique(self, p: int)
        requires
            self.wf(),
            0 <= p < self.registry@.len(),
        ensures
            self.entry(p) == self.handles@[self.registry@[p] as int],
            self.position_of(self.registry@[p] as int) == p,
    {
        assert(self.entry(p) == self.handles@[self.registry@[p] as int]);
        if p < self.idle_count {
            assert(!self.entry(p).active && self.entry(p).partition_slot == p);
        } else {
            assert(self.entry(p).active && self.entry(p).partition_slot == p - self.idle_count);
        }
    }

    /// Where the entry with id `j` stands in the registry: at the position
    /// its own partition and slot describe, with the slot within its
    /// partition's count.
    pub proof fn lemma_id_position(self, j: int)
        requires
            self.wf(),
            0 <= j < self.handles@.len(),
        ensures
            0 <= self.position_of(j) < self.registry@.len(),
            self.registry@[self.position_of(j)] == j,
            self.entry(self.position_of(j)) == self.handles@[j],
            !self.handles@[j].active ==> self.handles@[j].partition_slot < self.idle_count
                && self.position_of(j) == self.handles@[j].partition_slot,
            self.handles@[j].active ==> self.handles@[j].partition_slot < self.active_count
                && self.position_of(j) == self.idle_count + self.handles@[j].partition_slot,
    {
        assert(0 <= self.position_of(j) < self.registry@.len() && self.registry@[self.position_of(
            j,
        )] == j);
        assert(self.entry(self.position_of(j)) == self.handles@[self.registry@[self.position_of(
            j,
        )] as int]);
        if self.position_of(j) < self.idle_count {
            assert(!self.entry(self.position_of(j)).active);
        } else {
            assert(self.entry(self.position_of(j)).active);
        }
    }

    /// Distinct entries of one partition own disjoint record regions: the
    /// one with the smaller slot ends no later than the other begins.
    pub proof fn lemma_disjoint_regions(self, id1: int, id2: int)
        requires
            self.wf(),
            0 <= id1 < self.handles@.len(),
            0 <= id2 < self.handles@.len(),
            id1 != id2,
            self.handles@[id1].active == self.handles@[id2].active,
            self.handles@[id1].partition_slot < self.handles@[id2].partition_slot,
        ensures
            self.handles@[id1].array_offset + self.handles@[id1].length
                <= self.handles@[id2].array_offset,
    {
        let p1 = self.position_of(id1);
        let p2 = self.position_of(id2);
        self.lemma_arena_binds(id1);
        self.lemma_arena_binds(id2);
        self.lemma_offsets_ordered(p1, p2);
    }

    /// Density law: within each partition, in slot order, each entry's
    /// offset equals the previous entry's offset plus the previous entry's
    /// length, so the array holds no gap between entries.
    pub proof fn lemma_partition_density(self, p: int)
        requires
            self.wf(),
            (1 <= p < self.idle_count) || (self.idle_count + 1 <= p < self.registry@.len()),
        ensures
            self.entry(p).array_offset == self.entry(p - 1).array_offset + self.entry(
                p - 1,
            ).length,
    {
    }

    /// Registry consistency law: the registry is exactly as long as the two
    /// partition counts together, its first `idle_count` entries are the
    /// idle entries in slot order, and the rest are the active entries in
    /// slot order.
    pub proof fn lemma_registry_consistency(self)
        requires
            self.wf(),
        ensures
            self.registry@.len() == self.idle_count + self.active_count,
            forall|p: int|
                0 <= p < self.idle_count ==> !(#[trigger] self.entry(p)).active && self.entry(
                    p,
                ).partition_slot == p,
            forall|p: int|
                self.idle_count <= p < self.registry@.len() ==> (#[trigger] self.entry(p)).active
                    && self.entry(p).partition_slot == p - self.idle_count,
    {
    }

    /// A table that differs from a well-formed one only in the recency
    /// metadata of its handles is well-formed again: well-formedness never
    /// reads `last_touch` or `idle_threshold`.
    pub proof fn lemma_retouch_wf(self, b: Table<T>)
        requires
            self.wf(),
            b.registry@ == self.registry@,
            b.idle_count == self.idle_count,
            b.active_count == self.active_count,
            b.idle_data@ == self.idle_data@,
            b.active_data@ == self.active_data@,
            b.handles@.len() == self.handles@.len(),
            forall|id: int|
                0 <= id < self.handles@.len() ==> {
                    &&& (#[trigger] b.handles@[id]).partition_slot == self.handles@[
                        id].partition_slot
                    &&& b.handles@[id].array_offset == self.handles@[id].array_offset
                    &&& b.handles@[id].length == self.handles@[id].length
                    &&& b.handles@[id].active == self.handles@[id].active
                },
        ensures
            b.wf(),
            forall|j: int|
                0 <= j < self.handles@.len() ==> b.handle_records(j) == self.handle_records(j),
    {
        assert forall|p: int| 0 <= p < b.registry@.len() implies {
            &&& (#[trigger] b.entry(p)).active == self.entry(p).active
            &&& b.entry(p).partition_slot == self.entry(p).partition_slot
            &&& b.entry(p).array_offset == self.entry(p).array_offset
            &&& b.entry(p).length == self.entry(p).length
        } by {
            assert(self.registry@[p] < self.handles@.len());
        }
        assert forall|id: int| 0 <= id < b.handles@.len() implies 0 <= #[trigger] b.position_of(
            id,
        ) < b.registry@.len() && b.registry@[b.position_of(id)] == id by {
            assert(b.position_of(id) == self.position_of(id));
        }
        assert forall|j: int| 0 <= j < self.handles@.len() implies b.handle_records(j)
            == self.handle_records(j) by {
            assert(b.handles@[j].active == self.handles@[j].active);
        }
    }

    /// Overwriting record content in place preserves well-formedness: a
    /// table with the same handles, registry and counts as a well-formed
    /// one, and arrays of the same lengths, is well-formed again.
    pub proof fn lemma_content_update_wf(self, b: Table<T>)
        requires
            self.wf(),
            b.handles@ == self.handles@,
            b.registry@ == self.registry@,
            b.idle_count == self.idle_count,
            b.active_count == self.active_count,
            b.idle_data@.len() == self.idle_data@.len(),
            b.active_data@.len() == self.active_data@.len(),
        ensures
            b.wf(),
    {
        assert forall|p: int| 0 <= p < b.registry@.len() implies #[trigger] b.entry(p)
            == self.entry(p) by {}
        assert forall|id: int| 0 <= id < b.handles@.len() implies #[trigger] b.position_of(id)
            == self.position_of(id) by {}
    }

    /// Makes an empty table.
    pub fn new() -> (t: Table<T>)
        ensures
            t.wf(),
            t.handles@.len() == 0,
            t.registry@.len() == 0,
            t.idle_count == 0,
            t.active_count == 0,
            t.idle_data@.len() == 0,
            t.active_data@.len() == 0,
    {
        Table {
            idle_data: Vec::new(),
            active_data: Vec::new(),
            handles: Vec::new(),
            registry: Vec::new(),
            idle_count: 0,
            active_count: 0,
        }
    }

    /// Registers `records` as one new entry at the tail of the idle
    /// partition and returns its stable id.  The entry starts idle, counts
    /// as touched `now`, and must stay active for `idle_threshold`
    /// milliseconds after a promotion before it can be demoted.
    #[verifier::rlimit(50)]
    pub fn insert(&mut self, records: Vec<T>, idle_threshold: u128, now: u128) -> (id: usize)
        requires
            old(self).wf(),
            records@.len() >= 1,
            old(self).idle_data@.len() + records@.len() + old(self).active_data@.len()
                <= usize::MAX,
            old(self).handles@.len() < usize::MAX,
        ensures
            final(self).wf(),
            id == old(self).handles@.len(),
            final(self).handles@ == old(self).handles@.push(
                Handle {
                    partition_slot: old(self).idle_count,
                    array_offset: old(self).idle_data.len(),
                    length: records.len(),
                    last_touch: now,
                    idle_threshold,
                    active: false,
                },
            ),
            final(self).registry@ == old(self).registry@.insert(old(self).idle_count as int, id),
            final(self).idle_data@ == old(self).idle_data@ + records@,
            final(self).active_data@ == old(self).active_data@,
            final(self).idle_count == old(self).idle_count + 1,
            final(self).active_count == old(self).active_count,
            final(self).handle_records(id as int) == records@,
            forall|j: int|
                0 <= j < old(self).handles@.len() ==> final(self).handle_records(j) == old(
                    self,
                ).handle_records(j),
    {
        let ghost rec0 = records@;
        let id = self.handles.len();
        let h = Handle::new(self.idle_count, self.idle_data.len(), records.len(), idle_threshold, now);
        self.handles.push(h);
        self.registry.insert(self.idle_count, id);
        let mut moved = records;
        self.idle_data.append(&mut moved);
        self.idle_count = self.idle_count + 1;

        proof {
            let o = *old(self);
            let n = *self;
            let ic0 = o.idle_count as int;
            o.registry@.insert_ensures(ic0, id);
            assert forall|p: int| 0 <= p < n.registry@.len() && p != ic0 implies {
                &&& (#[trigger] n.registry@[p]) < o.handles@.len()
                &&& n.entry(p) == o.entry(if p < ic0 { p } else { p - 1 })
            } by {
                if p < ic0 {
                    assert(n.registry@[p] == o.registry@[p]);
                    assert(o.registry@[p] < o.handles@.len());
                } else {
                    assert(n.registry@[p] == o.registry@[p - 1]);
                    assert(o.registry@[p - 1] < o.handles@.len());
                }
            }
            assert(n.registry@[ic0] == id);
            assert(n.entry(ic0) == h);
            assert(n.valid_positions()) by {
                assert forall|jd: int| 0 <= jd < n.handles@.len() implies 0
                    <= #[trigger] n.position_of(jd) < n.registry@.len() && n.registry@[
                    n.position_of(jd)] == jd by {
                    if jd < o.handles@.len() {
                        assert(n.handles@[jd] == o.handles@[jd]);
                        if o.handles@[jd].active {
                            assert(n.position_of(jd) == o.position_of(jd) + 1);
                        } else {
                            assert(n.position_of(jd) == o.position_of(jd));
                        }
                    } else {
                        assert(n.position_of(jd) == ic0);
                    }
                }
            }
            assert(n.dense()) by {
                if ic0 > 0 {
                    assert(n.entry(0) == o.entry(0));
                    assert(n.entry(ic0 - 1) == o.entry(ic0 - 1));
                }
                assert(n.entry(ic0).array_offset + n.entry(ic0).length == n.idle_data@.len());
                if o.active_count > 0 {
                    assert(n.entry(ic0 + 1) == o.entry(ic0));
                    assert(n.entry(n.registry@.len() - 1) == o.entry(o.registry@.len() - 1));
                }
            }
            assert(n.wf());
            assert(n.idle_data@ == o.idle_data@ + rec0);
            assert(n.handle_records(id as int) =~= rec0);
            assert forall|j: int| 0 <= j < o.handles@.len() implies n.handle_records(j)
                == o.handle_records(j) by {
                o.lemma_arena_binds(j);
                let hj = o.handles@[j];
                assert(n.handles@[j] == hj);
                if !hj.active {
                    assert(n.handle_records(j) =~= o.handle_records(j)) by {
                        assert forall|k: int| 0 <= k < hj.length implies #[trigger] n.idle_data@[
                            hj.array_offset + k
                        ] == o.idle_data@[hj.array_offset + k] by {
                            assert(hj.array_offset + k < o.idle_data@.len());
                        }
                    }
                } else {
                    assert(n.handle_records(j) =~= o.handle_records(j));
                }
            }
        }
        id
    }

    /// Total number of records across both partitions; the capacity a
    /// mirror buffer must offer.
    pub fn record_count(&self) -> (n: usize)
        requires
            self.wf(),
        ensures
            n == self.buffer_content().len(),
    {
        self.idle_data.len() + self.active_data.len()
    }

    /// Length of the idle array: the partition boundary, in records, of the
    /// mirror buffer's physical layout.
    pub fn idle_len(&self) -> (n: usize)
        ensures
            n == self.idle_data@.len(),
    {
        self.idle_data.len()
    }

    /// Number of entries ever registered; ids range below this count.
    pub fn entry_count(&self) -> (n: usize)
        ensures
            n == self.handles@.len(),
    {
        self.handles.len()
    }

    /// A copy of the handle of entry `id`.
    pub fn handle(&self, id: usize) -> (h: Handle)
        requires
            id < self.handles@.len(),
        ensures
            h == self.handles@[id as int],
    {
        self.handles[id]
    }
}

impl<T: Copy> Table<T> {
    /// A copy of the records currently owned by entry `id`.
    pub fn read_records(&self, id: usize) -> (out: Vec<T>)
        requires
            self.wf(),
            id < self.handles@.len(),
        ensures
            out@ == self.handle_records(id as int),
    {
        proof {
            self.lemma_arena_binds(id as int);
        }
        let h = self.handles[id];
        if h.active {
            copy_range(&self.active_data, h.array_offset, h.length)
        } else {
            copy_range(&self.idle_data, h.array_offset, h.length)
        }
    }

    /// Overwrites the records owned by entry `id` in place.  A content
    /// update never moves an entry between partitions: every other entry's
    /// records, every handle, and the registry stay as they were.
    pub fn write_records(&mut self, id: usize, values: &Vec<T>)
        requires
            old(self).wf(),
            id < old(self).handles@.len(),
            values@.len() == old(self).handles@[id as int].length,
        ensures
            final(self).wf(),
            final(self).handles@ == old(self).handles@,
            final(self).registry@ == old(self).registry@,
            final(self).idle_count == old(self).idle_count,
            final(self).active_count == old(self).active_count,
            final(self).idle_data@.len() == old(self).idle_data@.len(),
            final(self).active_data@.len() == old(self).active_data@.len(),
            final(self).handle_records(id as int) == values@,
            forall|j: int|
                0 <= j < old(self).handles@.len() && j != id ==> final(self).handle_records(j)
                    == old(self).handle_records(j),
    {
        proof {
            self.lemma_arena_binds(id as int);
            assert(self.active_data@.len() == self.active_data.len());
            assert(self.idle_data@.len() == self.idle_data.len());
        }
        let h = self.handles[id];
        let mut k: usize = 0;
        if h.active {
            while k < h.length
                invariant
                    k <= h.length,
                    values@.len() == h.length,
                    h.array_offset + h.length <= self.active_data@.len(),
                    self.active_data@.len() <= usize::MAX,
                    self.handles@ == old(self).handles@,
                    self.registry@ == old(self).registry@,
                    self.idle_count == old(self).idle_count,
                    self.active_count == old(self).active_count,
                    self.idle_data@ == old(self).idle_data@,
                    self.active_data@.len() == old(self).active_data@.len(),
                    forall|i: int|
                        0 <= i < self.active_data@.len() && !(h.array_offset <= i < h.array_offset
                            + k) ==> #[trigger] self.active_data@[i] == old(self).active_data@[i],
                    forall|i: int|
                        0 <= i < k ==> #[trigger] self.active_data@[h.array_offset + i]
                            == values@[i],
                decreases h.length - k,
            {
                self.active_data[h.array_offset + k] = values[k];
                k = k + 1;
            }
            proof {
                assert(k == h.length);
                assert(self.handles@[id as int] == h);
                assert forall|i: int| 0 <= i < h.length implies self.active_data@[h.array_offset
                    + i] == values@[i] by {
                    assert(self.active_data@[h.array_offset + i] == values@[i]);
                }
                assert(self.handle_records(id as int) =~= values@);
            }
        } else {
            while k < h.length
                invariant
                    k <= h.length,
                    values@.len() == h.length,
                    h.array_offset + h.length <= self.idle_data@.len(),
                    self.idle_data@.len() <= usize::MAX,
                    self.handles@ == old(self).handles@,
                    self.registry@ == old(self).registry@,
                    self.idle_count == old(self).idle_count,
                    self.active_count == old(self).active_count,
                    self.active_data@ == old(self).active_data@,
                    self.idle_data@.len() == old(self).idle_data@.len(),
                    forall|i: int|
                        0 <= i < self.idle_data@.len() && !(h.array_offset <= i < h.array_offset
                            + k) ==> #[trigger] self.idle_data@[i] == old(self).idle_data@[i],
                    forall|i: int|
                        0 <= i < k ==> #[trigger] self.idle_data@[h.array_offset + i] == values@[i],
                decreases h.length - k,
            {
                self.idle_data[h.array_offset + k] = values[k];
                k = k + 1;
            }
            proof {
                assert(k == h.length);
                assert(self.handles@[id as int] == h);
                assert forall|i: int| 0 <= i < h.length implies self.idle_data@[h.array_offset + i]
                    == values@[i] by {
                    assert(self.idle_data@[h.array_offset + i] == values@[i]);
                }
                assert(self.handle_records(id as int) =~= values@);
            }
        }
        proof {
            let o = *old(self);
            let n = *self;
            o.lemma_content_update_wf(n);
            assert forall|j: int| 0 <= j < o.handles@.len() && j != id implies n.handle_records(j)
                == o.handle_records(j) by {
                let hj = o.handles@[j];
                o.lemma_arena_binds(j);
                if hj.active == h.active {
                    if hj.partition_slot < h.partition_slot {
                        o.lemma_disjoint_regions(j, id as int);
                    } else {
                        o.lemma_disjoint_regions(id as int, j);
                    }
                    assert(n.handle_records(j) =~= o.handle_records(j));
                } else {
                    assert(n.handle_records(j) =~= o.handle_records(j));
                }
            }
        }
    }

    /// A mutable reference to the single record of entry `id`; the entry
    /// must own exactly one record.  Only record content changes, so
    /// [`Table::lemma_content_update_wf`] recovers well-formedness once the
    /// borrow ends.
    pub fn record_mut(&mut self, id: usize) -> (r: &mut T)
        requires
            old(self).wf(),
            id < old(self).handles@.len(),
            old(self).handles@[id as int].length == 1,
        ensures
            *r == old(self).handle_records(id as int)[0],
            final(self).handles@ == old(self).handles@,
            final(self).registry@ == old(self).registry@,
            final(self).idle_count == old(self).idle_count,
            final(self).active_count == old(self).active_count,
            ({
                let h = old(self).handles@[id as int];
                if h.active {
                    final(self).idle_data@ == old(self).idle_data@ && final(self).active_data@
                        == old(self).active_data@.update(h.array_offset as int, *final(r))
                } else {
                    final(self).active_data@ == old(self).active_data@ && final(self).idle_data@
                        == old(self).idle_data@.update(h.array_offset as int, *final(r))
                }
            }),
    {
        proof {
            self.lemma_arena_binds(id as int);
        }
        let h = self.handles[id];
        if h.active {
            &mut self.active_data[h.array_offset]
        } else {
            &mut self.idle_data[h.array_offset]
        }
    }
}

impl Handle {
    /// The entry's slot in the global slot space of `table`: for an active
    /// entry, when `adjust` is set, the idle entry count is added, because
    /// the mirror buffer lays idle entries out before active ones.
    pub fn global_slot<T>(&self, table: &Table<T>, adjust: bool) -> (s: usize)
        requires
            table.wf(),
            table.binds(*self),
        ensures
            s == self.partition_slot + if self.active && adjust {
                table.idle_count as int
            } else {
                0
            },
    {
        proof {
            assert(table.registry@.len() == table.registry.len());
            assert(table.idle_count + table.active_count == table.registry@.len());
        }
        if self.active && adjust {
            self.partition_slot + table.idle_count
        } else {
            self.partition_slot
        }
    }

    /// The record offset of the entry's region in the global record space
    /// of `table`: for an active entry, when `adjust` is set, the idle
    /// array's length is added.
    pub fn global_offset<T>(&self, table: &Table<T>, adjust: bool) -> (o: usize)
        requires
            table.wf(),
            table.binds(*self),
        ensures
            o == self.array_offset + if self.active && adjust {
                table.idle_data@.len()
            } else {
                0
            },
    {
        if self.active && adjust {
            self.array_offset + table.idle_data.len()
        } else {
            self.array_offset
        }
    }

    /// The half-open record range `[start, end)` the entry occupies, in
    /// the coordinates of [`Handle::global_offset`]; what a draw call reads
    /// from the mirror buffer when `adjust` is set.
    pub fn record_range<T>(&self, table: &Table<T>, adjust: bool) -> (r: (usize, usize))
        requires
            table.wf(),
            table.binds(*self),
        ensures
            r.0 == self.array_offset + if self.active && adjust {
                table.idle_data@.len()
            } else {
                0
            },
            r.1 == r.0 + self.length,
    {
        let start = self.global_offset(table, adjust);
        (start, start + self.length)
    }
}

/// Copies `count` records of `data` starting at `from` into a fresh vector.
pub(crate) fn copy_range<T: Copy>(data: &Vec<T>, from: usize, count: usize) -> (out: Vec<T>)
    requires
        from + count <= data@.len(),
    ensures
        out@ == data@.subrange(from as int, from + count),
{
    let mut out: Vec<T> = Vec::new();
    let mut k: usize = 0;
    proof {
        assert(data@.len() == data.len());
    }
    while k < count
        invariant
            k <= count,
            from + count <= data@.len(),
            data@.len() <= usize::MAX,
            out@ == data@.subrange(from as int, from + k),
        decreases count - k,
    {
        out.push(data[from + k]);
        proof {
            assert(out@ =~= data@.subrange(from as int, from + k + 1));
        }
        k = k + 1;
    }
    out
}

} // verus!
