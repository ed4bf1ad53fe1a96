//! The per-tick synchronizer: promotion of touched idle entries, batched
//! demotion of stale active entries, compaction of both partitions, and
//! the minimal mirror-buffer writes that follow.

use vstd::prelude::*;
use vstd::seq_lib::*;

use crate::handle::Handle;
use crate::table::Table;
use crate::table::copy_range;

verus! {

/// How a compaction step changes the handle of an entry that stays in the
/// partition at `side` (`true` for active) when the entry at `pivot`
/// leaves it: entries past `pivot` move one slot and `amount` records
/// towards the front; everything else is untouched.
pub open spec fn compacted(h: Handle, side: bool, pivot: usize, amount: usize) -> Handle {
    if h.active == side && h.partition_slot > pivot {
        Handle {
            partition_slot: (h.partition_slot - 1) as usize,
            array_offset: (h.array_offset - amount) as usize,
            ..h
        }
    } else {
        h
    }
}

/// The state `n` that a promotion of idle entry `id` out of table `o`
/// must leave behind: the entry re-homed to the active tail, idle entries
/// past its slot compacted, its records moved from the idle array to the
/// active tail, and its registry entry moved to the registry's tail.
pub open spec fn promoted_state<T>(o: Table<T>, n: Table<T>, id: int) -> bool {
    let s = o.handles@[id].partition_slot;
    let off = o.handles@[id].array_offset;
    let len = o.handles@[id].length;
    &&& n.idle_count == o.idle_count - 1
    &&& n.active_count == o.active_count + 1
    &&& n.handles@.len() == o.handles@.len()
    &&& n.handles@[id] == (Handle {
        partition_slot: o.active_count,
        array_offset: o.active_data.len(),
        active: true,
        ..o.handles@[id]
    })
    &&& forall|j: int|
        0 <= j < o.handles@.len() && j != id ==> n.handles@[j] == compacted(
            #[trigger] o.handles@[j],
            false,
            s,
            len,
        )
    &&& n.idle_data@ == o.idle_data@.subrange(0, off as int) + o.idle_data@.subrange(
        off + len,
        o.idle_data@.len() as int,
    )
    &&& n.active_data@ == o.active_data@ + o.idle_data@.subrange(off as int, off + len)
    &&& n.registry@ == o.registry@.remove(s as int).push(id as usize)
}

impl<T> Table<T> {
    /// Moves the idle entry `id` to the tail of the active partition and
    /// closes the gap its records leave in the idle array: every idle
    /// entry past its slot moves one slot and `length` records down.
    /// Record content is preserved entry by entry.
    #[verifier::rlimit(100)]
    #[verifier::spinoff_prover]
    pub fn promote(&mut self, id: usize)
        requires
            old(self).wf(),
            id < old(self).handles@.len(),
            !old(self).handles@[id as int].active,
        ensures
            final(self).wf(),
            promoted_state(*old(self), *final(self), id as int),
            forall|j: int|
                0 <= j < old(self).handles@.len() ==> final(self).handle_records(j) == old(
                    self,
                ).handle_records(j),
    {
        let ghost o = *old(self);
        proof {
            self.lemma_arena_binds(id as int);
            assert(o.registry@.len() == o.registry.len());
        }
        let h = self.handles[id];
        let s = h.partition_slot;
        let off = h.array_offset;
        let len = h.length;
        let ic0 = self.idle_count;
        let ghost rlen = o.registry@.len() as int;

        // Facts about the idle entries past slot `s`, gathered once so the
        // compaction loop below needs no further search.
        proof {
            assert forall|p: int| s < p < ic0 implies {
                &&& (#[trigger] o.registry@[p]) < o.handles@.len()
                &&& o.registry@[p] != id
                &&& o.handles@[o.registry@[p] as int] == o.entry(p)
                &&& !o.entry(p).active
                &&& o.entry(p).partition_slot == p
                &&& o.entry(p).array_offset >= off + len
            } by {
                o.lemma_id_position(id as int);
                o.lemma_position_unique(p);
                o.lemma_offsets_ordered(s as int, p);
            }
            assert forall|j: int|
                0 <= j < o.handles@.len() && !(#[trigger] o.handles@[j]).active implies 0
                <= o.handles@[j].partition_slot < ic0 && o.registry@[o.handles@[
                j].partition_slot as int] == j by {
                o.lemma_id_position(j);
            }
        }

        // Detach the entry's records from the idle array and append them
        // to the active array.
        let mut tail = self.idle_data.split_off(off);
        let mut rest = tail.split_off(len);
        self.idle_data.append(&mut rest);
        let new_off = self.active_data.len();
        self.active_data.append(&mut tail);

        // Point the handle at its new region at the active tail.
        let mut hh = h;
        hh.active = true;
        hh.partition_slot = self.active_count;
        hh.array_offset = new_off;
        self.handles[id] = hh;

        // Move the registry entry from its idle position to the tail.
        let moved_id = self.registry.remove(s);
        proof {
            assert(moved_id == id);
            o.registry@.remove_ensures(s as int);
        }

        // Close the gap: idle entries past slot `s` move one slot and
        // `len` records down.
        let mut q = s;
        while q < ic0 - 1
            invariant
                s <= q <= ic0 - 1,
                0 <= s < ic0 <= rlen,
                rlen <= usize::MAX,
                len >= 1,
                self.idle_count == o.idle_count,
                self.active_count == o.active_count,
                self.idle_data@ == o.idle_data@.subrange(0, off as int) + o.idle_data@.subrange(
                    off + len,
                    o.idle_data@.len() as int,
                ),
                self.active_data@ == o.active_data@ + o.idle_data@.subrange(
                    off as int,
                    off + len,
                ),
                self.registry@.len() == rlen - 1,
                forall|p: int| 0 <= p < s ==> self.registry@[p] == o.registry@[p],
                forall|p: int|
                    s <= p < rlen - 1 ==> self.registry@[p] == o.registry@[p + 1],
                forall|p: int| s < p < ic0 ==> {
                    &&& (#[trigger] o.registry@[p]) < o.handles@.len()
                    &&& o.registry@[p] != id
                    &&& o.handles@[o.registry@[p] as int] == o.entry(p)
                    &&& !o.entry(p).active
                    &&& o.entry(p).partition_slot == p
                    &&& o.entry(p).array_offset >= off + len
                },
                forall|j: int|
                    0 <= j < o.handles@.len() && !(#[trigger] o.handles@[j]).active ==> 0
                        <= o.handles@[j].partition_slot < ic0 && o.registry@[o.handles@[
                    j].partition_slot as int] == j,
                id < o.handles@.len(),
                self.handles@.len() == o.handles@.len(),
                self.handles@[id as int] == hh,
                forall|j: int|
                    0 <= j < o.handles@.len() && j != id ==> #[trigger] self.handles@[j] == (
                    if !o.handles@[j].active && s < o.handles@[j].partition_slot <= q {
                        compacted(o.handles@[j], false, s, len)
                    } else {
                        o.handles@[j]
                    }),
            decreases ic0 - 1 - q,
        {
            let jd = self.registry[q];
            proof {
                assert(jd == o.registry@[q + 1]);
                assert(o.handles@[jd as int] == o.entry(q + 1));
                assert(self.handles@[jd as int] == o.handles@[jd as int]);
            }
            let mut hj = self.handles[jd];
            hj.partition_slot = hj.partition_slot - 1;
            hj.array_offset = hj.array_offset - len;
            self.handles[jd] = hj;
            q = q + 1;
        }

        self.registry.push(id);
        self.idle_count = ic0 - 1;
        self.active_count = self.active_count + 1;

        proof {
            assert(self.registry@ =~= o.registry@.remove(s as int).push(id));
            assert(promoted_state(o, *self, id as int));
            lemma_promote_positions(o, *self, id as int);
            lemma_promote_dense(o, *self, id as int);
            lemma_promote_records(o, *self, id as int);
        }
    }
}

/// After a promotion, the registry again lists every entry exactly once,
/// idle entries first in slot order, then active entries in slot order.
#[verifier::rlimit(100)]
#[verifier::spinoff_prover]
proof fn lemma_promote_positions<T>(o: Table<T>, n: Table<T>, id: int)
    requires
        o.wf(),
        0 <= id < o.handles@.len(),
        !o.handles@[id].active,
        promoted_state(o, n, id),
    ensures
        n.valid_positions(),
{
    let s = o.handles@[id].partition_slot as int;
    let ic0 = o.idle_count as int;
    let rlen = o.registry@.len() as int;
    o.lemma_arena_binds(id);
    o.registry@.remove_ensures(s);
    assert(n.registry@.len() == rlen);

    assert forall|p: int| 0 <= p < rlen - 1 implies n.registry@[p] == (if p < s {
        o.registry@[p]
    } else {
        o.registry@[p + 1]
    }) by {
        assert(n.registry@[p] == o.registry@.remove(s)[p]);
    }
    assert(n.registry@[rlen - 1] == id);

    assert forall|p: int| 0 <= p < rlen implies (#[trigger] n.registry@[p])
        < n.handles@.len() by {
        if p < s {
        } else if p < rlen - 1 {
            assert(o.registry@[p + 1] < o.handles@.len());
        }
    }
    assert forall|p: int| 0 <= p < rlen && p != s implies (#[trigger] o.registry@[p]) != id by {
        o.lemma_id_position(id);
        o.lemma_position_unique(p);
    }
    assert forall|p: int| 0 <= p < n.idle_count implies !(#[trigger] n.entry(p)).active
        && n.entry(p).partition_slot == p by {
        if p < s {
            assert(!o.entry(p).active && o.entry(p).partition_slot == p);
            assert(n.entry(p) == o.entry(p));
        } else {
            assert(!o.entry(p + 1).active && o.entry(p + 1).partition_slot == p + 1);
            assert(n.entry(p) == compacted(
                o.handles@[o.registry@[p + 1] as int],
                false,
                s as usize,
                o.handles@[id].length,
            ));
        }
    }
    assert forall|p: int| n.idle_count <= p < rlen implies (#[trigger] n.entry(p)).active
        && n.entry(p).partition_slot == p - n.idle_count by {
        if p == rlen - 1 {
            assert(n.entry(p) == n.handles@[id]);
        } else if p >= s {
            assert(o.entry(p + 1).active && o.entry(p + 1).partition_slot == p + 1 - ic0);
            assert(n.entry(p) == compacted(
                o.handles@[o.registry@[p + 1] as int],
                false,
                s as usize,
                o.handles@[id].length,
            ));
        } else {
            assert(o.entry(p).active && o.entry(p).partition_slot == p - ic0);
            assert(n.entry(p) == o.entry(p));
        }
    }
    assert forall|jd: int| 0 <= jd < n.handles@.len() implies 0 <= #[trigger] n.position_of(jd)
        < n.registry@.len() && n.registry@[n.position_of(jd)] == jd by {
        if jd == id {
            assert(n.position_of(jd) == rlen - 1);
        } else {
            let hj = o.handles@[jd];
            assert(o.registry@[o.position_of(jd)] == jd);
            if !hj.active && hj.partition_slot > s {
                assert(n.position_of(jd) == hj.partition_slot - 1);
                assert(n.registry@[hj.partition_slot - 1] == o.registry@[
                    hj.partition_slot as int]);
            } else if !hj.active {
                assert(hj.partition_slot != s) by {
                    o.lemma_id_position(id);
                    o.lemma_id_position(jd);
                }
                assert(n.position_of(jd) == hj.partition_slot as int);
            } else {
                assert(n.position_of(jd) == ic0 - 1 + hj.partition_slot);
                assert(n.registry@[ic0 - 1 + hj.partition_slot] == o.registry@[ic0
                    + hj.partition_slot]);
            }
        }
    }
}

/// After a promotion, both partitions are dense again.
#[verifier::rlimit(100)]
#[verifier::spinoff_prover]
proof fn lemma_promote_dense<T>(o: Table<T>, n: Table<T>, id: int)
    requires
        o.wf(),
        0 <= id < o.handles@.len(),
        !o.handles@[id].active,
        promoted_state(o, n, id),
    ensures
        n.dense(),
        forall|jd: int|
            0 <= jd < n.handles@.len() ==> (#[trigger] n.handles@[jd]).length >= 1,
        n.idle_data@.len() + n.active_data@.len() <= usize::MAX,
{
    let s = o.handles@[id].partition_slot as int;
    let off = o.handles@[id].array_offset as int;
    let len = o.handles@[id].length as int;
    let ic0 = o.idle_count as int;
    let rlen = o.registry@.len() as int;
    let hh = n.handles@[id];
    o.lemma_arena_binds(id);
    o.registry@.remove_ensures(s);
    assert(n.registry@.len() == rlen);

    assert forall|p: int| 0 <= p < rlen - 1 implies n.registry@[p] == (if p < s {
        o.registry@[p]
    } else {
        o.registry@[p + 1]
    }) by {
        assert(n.registry@[p] == o.registry@.remove(s)[p]);
    }
    assert(n.registry@[rlen - 1] == id);
    assert forall|p: int| 0 <= p < rlen && p != s implies o.registry@[p] != id && o.entry(p)
        == o.handles@[o.registry@[p] as int] by {
        o.lemma_id_position(id);
        o.lemma_position_unique(p);
    }
    assert forall|p: int| 0 <= p < rlen - 1 implies #[trigger] n.entry(p) == (if p < s {
        o.entry(p)
    } else {
        compacted(o.entry(p + 1), false, s as usize, len as usize)
    }) by {
        if p < s {
            assert(n.registry@[p] == o.registry@[p]);
        } else {
            assert(n.registry@[p] == o.registry@[p + 1]);
        }
    }
    assert(n.entry(rlen - 1) == hh);

    if n.idle_count > 0 {
        assert(n.entry(0).array_offset == 0) by {
            if s == 0 {
                assert(o.entry(1).array_offset == o.entry(0).array_offset + o.entry(0).length);
                assert(o.entry(0) == o.handles@[id]);
            }
        }
    }
    assert forall|p: int| 1 <= p < n.idle_count implies (#[trigger] n.entry(p)).array_offset
        == n.entry(p - 1).array_offset + n.entry(p - 1).length by {
        if p - 1 >= s {
            assert(o.entry(p + 1).array_offset == o.entry(p).array_offset + o.entry(p).length);
            o.lemma_offsets_ordered(s, p);
        } else if p == s {
            assert(o.entry(p + 1).array_offset == o.entry(p).array_offset + o.entry(p).length);
            assert(o.entry(p) == o.handles@[id]);
            assert(o.entry(p).array_offset == o.entry(p - 1).array_offset + o.entry(
                p - 1,
            ).length);
        } else {
            assert(o.entry(p).array_offset == o.entry(p - 1).array_offset + o.entry(
                p - 1,
            ).length);
        }
    }
    if n.idle_count > 0 {
        assert(n.entry(n.idle_count - 1).array_offset + n.entry(n.idle_count - 1).length
            == n.idle_data@.len()) by {
            let q = n.idle_count - 1;
            if q >= s {
                assert(o.entry(q + 1).array_offset + o.entry(q + 1).length
                    == o.idle_data@.len());
                o.lemma_offsets_ordered(s, q + 1);
            } else {
                assert(q == s - 1 && s == ic0 - 1);
                assert(o.entry(s) == o.handles@[id]);
                assert(o.entry(s).array_offset + o.entry(s).length == o.idle_data@.len());
                assert(o.entry(s).array_offset == o.entry(q).array_offset + o.entry(q).length);
            }
        }
    }
    if n.idle_count == 0 {
        assert(ic0 == 1 && s == 0);
        assert(o.entry(0) == o.handles@[id]);
        assert(o.entry(0).array_offset + o.entry(0).length == o.idle_data@.len());
        assert(n.idle_data@.len() == 0);
    }
    if o.active_count > 0 {
        assert(n.entry(n.idle_count as int).array_offset == 0) by {
            assert(n.entry(ic0 - 1) == compacted(o.entry(ic0), false, s as usize, len as usize));
            assert(o.entry(ic0).array_offset == 0);
        }
    } else {
        assert(n.entry(n.idle_count as int) == hh);
        assert(o.active_data@.len() == 0);
    }
    assert forall|p: int| n.idle_count + 1 <= p < rlen implies (
    #[trigger] n.entry(p)).array_offset == n.entry(p - 1).array_offset + n.entry(
        p - 1,
    ).length by {
        if p == rlen - 1 {
            assert(o.active_count > 0);
            assert(n.entry(p - 1) == compacted(o.entry(rlen - 1), false, s as usize, len as usize));
            assert(o.entry(rlen - 1).array_offset + o.entry(rlen - 1).length
                == o.active_data@.len());
        } else {
            assert(o.entry(p + 1).array_offset == o.entry(p).array_offset + o.entry(p).length);
        }
    }
    assert(hh.array_offset + hh.length == n.active_data@.len());

    assert forall|jd: int| 0 <= jd < n.handles@.len() implies (
    #[trigger] n.handles@[jd]).length >= 1 by {
        assert(o.handles@[jd].length >= 1);
    }
}

/// A promotion preserves each entry's record content.
#[verifier::rlimit(100)]
#[verifier::spinoff_prover]
proof fn lemma_promote_records<T>(o: Table<T>, n: Table<T>, id: int)
    requires
        o.wf(),
        0 <= id < o.handles@.len(),
        !o.handles@[id].active,
        promoted_state(o, n, id),
    ensures
        forall|j: int| 0 <= j < o.handles@.len() ==> n.handle_records(j) == o.handle_records(j),
{
    let s = o.handles@[id].partition_slot as int;
    let off = o.handles@[id].array_offset as int;
    let len = o.handles@[id].length as int;
    o.lemma_arena_binds(id);
    assert forall|j: int| 0 <= j < o.handles@.len() implies n.handle_records(j)
        == o.handle_records(j) by {
        o.lemma_arena_binds(j);
        let hj = o.handles@[j];
        if j == id {
            assert(n.handle_records(j) =~= o.handle_records(j));
        } else if hj.active {
            assert(n.handles@[j] == hj);
            assert(n.handle_records(j) =~= o.handle_records(j)) by {
                assert forall|k: int| 0 <= k < hj.length implies #[trigger] n.active_data@[
                    hj.array_offset + k
                ] == o.active_data@[hj.array_offset + k] by {
                    assert(hj.array_offset + k < o.active_data@.len());
                }
            }
        } else if hj.partition_slot < s {
            assert(n.handles@[j] == hj);
            o.lemma_disjoint_regions(j, id);
            assert(n.handle_records(j) =~= o.handle_records(j)) by {
                assert forall|k: int| 0 <= k < hj.length implies #[trigger] n.idle_data@[
                    hj.array_offset + k
                ] == o.idle_data@[hj.array_offset + k] by {
                    assert(hj.array_offset + k < off);
                }
            }
        } else {
            assert(hj.partition_slot != s) by {
                o.lemma_id_position(id);
                o.lemma_id_position(j);
                assert(o.registry@[o.position_of(id)] == id);
            }
            o.lemma_disjoint_regions(id, j);
            assert(n.handles@[j] == compacted(hj, false, s as usize, len as usize));
            assert(n.handle_records(j) =~= o.handle_records(j)) by {
                assert forall|k: int| 0 <= k < hj.length implies #[trigger] n.idle_data@[
                    hj.array_offset - len + k
                ] == o.idle_data@[hj.array_offset + k] by {
                    assert(off + len <= hj.array_offset + k < o.idle_data@.len());
                }
            }
        }
    }
}

/// Cumulative pressure, across one table, at which a tick demotes every
/// stale active entry at once: batching amortizes the cost of the buffer
/// rewrite that any demotion forces.
pub const PRESSURE_THRESHOLD: u128 = 1000;

/// One notification from the change feed, keyed by entry id.  The
/// synchronizer reacts to insertions and modifications; removals are the
/// owner's affair and leave the touched set alone.
#[derive(Clone, Copy, Debug, PartialEq, Eq, Structural)]
pub enum ChangeEvent {
    /// An entry was registered under this id.
    Inserted(usize),
    /// The records of this id were overwritten.
    Modified(usize),
    /// The owner of this id dropped it.
    Removed(usize),
}

/// Whether event `e` marks entry `id` as touched.
pub open spec fn touches(e: ChangeEvent, id: usize) -> bool {
    match e {
        ChangeEvent::Inserted(j) => j == id,
        ChangeEvent::Modified(j) => j == id,
        ChangeEvent::Removed(_) => false,
    }
}

/// Whether `j` occurs in `ids` at or after position `from`.
pub open spec fn among(ids: Seq<usize>, from: int, j: usize) -> bool {
    exists|w: int| from <= w < ids.len() && ids[w] == j
}

/// Occurrence at or after `from` is occurrence at `from` or later.
proof fn lemma_among_step(ids: Seq<usize>, from: int, j: usize)
    requires
        0 <= from < ids.len(),
    ensures
        among(ids, from, j) <==> (ids[from] == j || among(ids, from + 1, j)),
{
    if among(ids, from, j) {
        let w = choose|w: int| from <= w < ids.len() && ids[w] == j;
        if w > from {
            assert(among(ids, from + 1, j));
        }
    }
    if ids[from] == j {
        assert(among(ids, from, j));
    }
    if among(ids, from + 1, j) {
        let w = choose|w: int| from + 1 <= w < ids.len() && ids[w] == j;
        assert(from <= w < ids.len() && ids[w] == j);
    }
}

/// Whether `x` occurs in `v`.
fn contains_id(v: &Vec<usize>, x: usize) -> (b: bool)
    ensures
        b == v@.contains(x),
{
    let mut i: usize = 0;
    while i < v.len()
        invariant
            i <= v@.len(),
            forall|k: int| 0 <= k < i ==> v@[k] != x,
        decreases v@.len() - i,
    {
        if v[i] == x {
            proof {
                assert(v@.contains(x));
            }
            return true;
        }
        i = i + 1;
    }
    proof {
        assert(!v@.contains(x));
    }
    false
}

/// Drains a batch of change-feed events into the set of touched entry
/// ids: the ids named by an insertion or modification, each id once,
/// removals ignored.
pub fn collect_touched(events: &Vec<ChangeEvent>) -> (out: Vec<usize>)
    ensures
        forall|x: usize|
            #[trigger] out@.contains(x) <==> exists|i: int|
                0 <= i < events@.len() && touches(#[trigger] events@[i], x),
        forall|k1: int, k2: int| 0 <= k1 < k2 < out@.len() ==> out@[k1] != out@[k2],
{
    let mut out: Vec<usize> = Vec::new();
    let mut i: usize = 0;
    while i < events.len()
        invariant
            i <= events@.len(),
            forall|x: usize|
                #[trigger] out@.contains(x) <==> exists|ii: int|
                    0 <= ii < i && touches(#[trigger] events@[ii], x),
            forall|k1: int, k2: int| 0 <= k1 < k2 < out@.len() ==> out@[k1] != out@[k2],
        decreases events@.len() - i,
    {
        let ghost entry_out = out@;
        match events[i] {
            ChangeEvent::Inserted(jd) | ChangeEvent::Modified(jd) => {
                if !contains_id(&out, jd) {
                    out.push(jd);
                    proof {
                        assert forall|x: usize| #[trigger] out@.contains(x) implies (
                        entry_out.contains(x) || x == jd) by {
                            let w = choose|w: int| 0 <= w < out@.len() && out@[w] == x;
                            if w < entry_out.len() {
                                assert(entry_out[w] == x);
                            }
                        }
                        assert forall|x: usize| entry_out.contains(x) implies out@.contains(
                            x,
                        ) by {
                            let w = choose|w: int| 0 <= w < entry_out.len() && entry_out[w] == x;
                            assert(out@[w] == x);
                        }
                        assert(out@[out@.len() - 1] == jd);
                    }
                }
                proof {
                    assert(out@.contains(jd));
                    assert forall|x: usize| #[trigger] out@.contains(x) implies exists|ii: int|
                        0 <= ii < i + 1 && touches(#[trigger] events@[ii], x) by {
                        if entry_out.contains(x) {
                            let ii = choose|ii: int|
                                0 <= ii < i && touches(#[trigger] events@[ii], x);
                            assert(0 <= ii < i + 1 && touches(events@[ii], x));
                        } else {
                            assert(x == jd);
                            assert(touches(events@[i as int], x));
                        }
                    }
                    assert forall|x: usize, ii: int|
                        0 <= ii < i + 1 && #[trigger] touches(events@[ii], x) implies out@.contains(
                        x,
                    ) by {
                        if ii < i {
                            assert(entry_out.contains(x));
                        } else {
                            assert(x == jd);
                        }
                    }
                }
            }
            ChangeEvent::Removed(_) => {
                proof {
                    assert forall|x: usize, ii: int|
                        0 <= ii < i + 1 && #[trigger] touches(events@[ii], x) implies out@.contains(
                        x,
                    ) by {
                        assert(ii < i);
                    }
                }
            }
        }
        i = i + 1;
    }
    out
}

/// The state `n` that a demotion of active entry `id` out of table `o`
/// must leave behind: the entry re-homed to the idle tail, active entries
/// past its slot compacted, its records moved from the active array to
/// the idle tail, and its registry entry moved to the partition boundary.
pub open spec fn demoted_state<T>(o: Table<T>, n: Table<T>, id: int) -> bool {
    let s = o.handles@[id].partition_slot;
    let off = o.handles@[id].array_offset;
    let len = o.handles@[id].length;
    &&& n.idle_count == o.idle_count + 1
    &&& n.active_count == o.active_count - 1
    &&& n.handles@.len() == o.handles@.len()
    &&& n.handles@[id] == (Handle {
        partition_slot: o.idle_count,
        array_offset: o.idle_data.len(),
        active: false,
        ..o.handles@[id]
    })
    &&& forall|j: int|
        0 <= j < o.handles@.len() && j != id ==> n.handles@[j] == compacted(
            #[trigger] o.handles@[j],
            true,
            s,
            len,
        )
    &&& n.active_data@ == o.active_data@.subrange(0, off as int) + o.active_data@.subrange(
        off + len,
        o.active_data@.len() as int,
    )
    &&& n.idle_data@ == o.idle_data@ + o.active_data@.subrange(off as int, off + len)
    &&& n.registry@ == o.registry@.remove(o.idle_count + s).insert(
        o.idle_count as int,
        id as usize,
    )
}

impl<T> Table<T> {
    /// Moves the active entry `id` to the tail of the idle partition and
    /// closes the gap its records leave in the active array: every active
    /// entry past its slot moves one slot and `length` records down.
    /// Record content is preserved entry by entry.
    #[verifier::rlimit(100)]
    #[verifier::spinoff_prover]
    pub fn demote(&mut self, id: usize)
        requires
            old(self).wf(),
            id < old(self).handles@.len(),
            old(self).handles@[id as int].active,
        ensures
            final(self).wf(),
            demoted_state(*old(self), *final(self), id as int),
            forall|j: int|
                0 <= j < old(self).handles@.len() ==> final(self).handle_records(j) == old(
                    self,
                ).handle_records(j),
    {
        let ghost o = *old(self);
        proof {
            self.lemma_arena_binds(id as int);
            o.lemma_id_position(id as int);
            assert(o.registry@.len() == o.registry.len());
        }
        let h = self.handles[id];
        let s = h.partition_slot;
        let off = h.array_offset;
        let len = h.length;
        let ic0 = self.idle_count;
        let pos = ic0 + s;
        let ghost rlen = o.registry@.len() as int;

        // Facts about the active entries past slot `s`, gathered once so
        // the compaction loop below needs no further search.
        proof {
            assert forall|p: int| ic0 + s < p < rlen implies {
                &&& (#[trigger] o.registry@[p]) < o.handles@.len()
                &&& o.registry@[p] != id
                &&& o.handles@[o.registry@[p] as int] == o.entry(p)
                &&& o.entry(p).active
                &&& o.entry(p).partition_slot == p - ic0
                &&& o.entry(p).array_offset >= off + len
            } by {
                o.lemma_id_position(id as int);
                o.lemma_position_unique(p);
                o.lemma_offsets_ordered(ic0 + s, p);
            }
            assert forall|j: int|
                0 <= j < o.handles@.len() && (#[trigger] o.handles@[j]).active implies 0
                <= o.handles@[j].partition_slot < o.active_count && o.registry@[ic0
                + o.handles@[j].partition_slot] == j by {
                o.lemma_id_position(j);
            }
        }

        // Detach the entry's records from the active array and append
        // them to the idle array.
        let mut tail = self.active_data.split_off(off);
        let mut rest = tail.split_off(len);
        self.active_data.append(&mut rest);
        let new_off = self.idle_data.len();
        self.idle_data.append(&mut tail);

        // Point the handle at its new region at the idle tail.
        let mut hh = h;
        hh.active = false;
        hh.partition_slot = ic0;
        hh.array_offset = new_off;
        self.handles[id] = hh;

        // Move the registry entry from its active position to the
        // partition boundary; the insertion happens after the compaction
        // loop, which works on positions past the removal point.
        let moved_id = self.registry.remove(pos);
        proof {
            assert(moved_id == id);
            o.registry@.remove_ensures(pos as int);
        }

        // Close the gap: active entries past slot `s` move one slot and
        // `len` records down.
        let mut q = pos;
        while q < self.registry.len()
            invariant
                pos <= q <= rlen - 1,
                0 <= s,
                ic0 + s == pos < rlen,
                rlen <= usize::MAX,
                len >= 1,
                ic0 == o.idle_count,
                self.idle_count == o.idle_count,
                self.active_count == o.active_count,
                self.active_data@ == o.active_data@.subrange(0, off as int)
                    + o.active_data@.subrange(off + len, o.active_data@.len() as int),
                self.idle_data@ == o.idle_data@ + o.active_data@.subrange(
                    off as int,
                    off + len,
                ),
                self.registry@.len() == rlen - 1,
                forall|p: int| 0 <= p < pos ==> self.registry@[p] == o.registry@[p],
                forall|p: int|
                    pos <= p < rlen - 1 ==> self.registry@[p] == o.registry@[p + 1],
                forall|p: int| pos < p < rlen ==> {
                    &&& (#[trigger] o.registry@[p]) < o.handles@.len()
                    &&& o.registry@[p] != id
                    &&& o.handles@[o.registry@[p] as int] == o.entry(p)
                    &&& o.entry(p).active
                    &&& o.entry(p).partition_slot == p - ic0
                    &&& o.entry(p).array_offset >= off + len
                },
                forall|j: int|
                    0 <= j < o.handles@.len() && (#[trigger] o.handles@[j]).active ==> 0
                        <= o.handles@[j].partition_slot < o.active_count && o.registry@[ic0
                        + o.handles@[j].partition_slot] == j,
                id < o.handles@.len(),
                self.handles@.len() == o.handles@.len(),
                self.handles@[id as int] == hh,
                forall|j: int|
                    0 <= j < o.handles@.len() && j != id ==> #[trigger] self.handles@[j] == (
                    if o.handles@[j].active && s < o.handles@[j].partition_slot <= q - ic0 {
                        compacted(o.handles@[j], true, s, len)
                    } else {
                        o.handles@[j]
                    }),
            decreases rlen - q,
        {
            let jd = self.registry[q];
            proof {
                assert(jd == o.registry@[q + 1]);
                assert(o.handles@[jd as int] == o.entry(q + 1));
                assert(self.handles@[jd as int] == o.handles@[jd as int]);
            }
            let mut hj = self.handles[jd];
            hj.partition_slot = hj.partition_slot - 1;
            hj.array_offset = hj.array_offset - len;
            self.handles[jd] = hj;
            q = q + 1;
        }

        self.registry.insert(ic0, id);
        self.idle_count = ic0 + 1;
        self.active_count = self.active_count - 1;

        proof {
            o.registry@.remove(pos as int).insert_ensures(ic0 as int, id);
            assert(self.registry@ =~= o.registry@.remove(pos as int).insert(ic0 as int, id));
            assert(demoted_state(o, *self, id as int));
            lemma_demote_positions(o, *self, id as int);
            lemma_demote_dense(o, *self, id as int);
            lemma_demote_records(o, *self, id as int);
        }
    }
}

/// After a demotion, the registry again lists every entry exactly once,
/// idle entries first in slot order, then active entries in slot order.
#[verifier::rlimit(100)]
#[verifier::spinoff_prover]
proof fn lemma_demote_positions<T>(o: Table<T>, n: Table<T>, id: int)
    requires
        o.wf(),
        0 <= id < o.handles@.len(),
        o.handles@[id].active,
        demoted_state(o, n, id),
    ensures
        n.valid_positions(),
{
    let s = o.handles@[id].partition_slot as int;
    let ic0 = o.idle_count as int;
    let pos = ic0 + s;
    let rlen = o.registry@.len() as int;
    o.lemma_id_position(id);
    o.registry@.remove_ensures(pos);
    o.registry@.remove(pos).insert_ensures(ic0, id as usize);
    assert(n.registry@.len() == rlen);

    assert forall|p: int| 0 <= p < rlen implies #[trigger] n.registry@[p] == (if p < ic0 {
        o.registry@[p]
    } else if p == ic0 {
        id as usize
    } else if p <= pos {
        o.registry@[p - 1]
    } else {
        o.registry@[p]
    }) by {
        if p < ic0 {
            assert(n.registry@[p] == o.registry@.remove(pos)[p]);
        } else if p > ic0 {
            assert(n.registry@[p] == o.registry@.remove(pos)[p - 1]);
        }
    }

    assert forall|p: int| 0 <= p < rlen && p != pos implies (#[trigger] o.registry@[p]) != id
        && o.registry@[p] < o.handles@.len() && o.position_of(o.registry@[p] as int) == p by {
        o.lemma_position_unique(p);
    }

    assert forall|p: int| 0 <= p < rlen implies (#[trigger] n.registry@[p])
        < n.handles@.len() by {}

    assert forall|p: int| 0 <= p < n.idle_count implies !(#[trigger] n.entry(p)).active
        && n.entry(p).partition_slot == p by {
        if p < ic0 {
            assert(!o.entry(p).active && o.entry(p).partition_slot == p);
            assert(n.entry(p) == o.entry(p));
        } else {
            assert(n.entry(p) == n.handles@[id]);
        }
    }
    assert forall|p: int| n.idle_count <= p < rlen implies (#[trigger] n.entry(p)).active
        && n.entry(p).partition_slot == p - n.idle_count by {
        if p <= pos {
            assert(o.entry(p - 1).active && o.entry(p - 1).partition_slot == p - 1 - ic0);
            assert(n.entry(p) == o.entry(p - 1));
        } else {
            assert(o.entry(p).active && o.entry(p).partition_slot == p - ic0);
            assert(n.entry(p) == compacted(
                o.handles@[o.registry@[p] as int],
                true,
                s as usize,
                o.handles@[id].length,
            ));
        }
    }
    assert forall|jd: int| 0 <= jd < n.handles@.len() implies 0 <= #[trigger] n.position_of(jd)
        < n.registry@.len() && n.registry@[n.position_of(jd)] == jd by {
        if jd == id {
            assert(n.position_of(jd) == ic0);
        } else {
            let hj = o.handles@[jd];
            o.lemma_id_position(jd);
            if hj.active && hj.partition_slot > s {
                assert(n.position_of(jd) == ic0 + hj.partition_slot);
            } else if hj.active {
                assert(hj.partition_slot != s);
                assert(n.position_of(jd) == ic0 + 1 + hj.partition_slot);
            } else {
                assert(n.position_of(jd) == hj.partition_slot as int);
            }
        }
    }
}

/// After a demotion, both partitions are dense again.
#[verifier::rlimit(100)]
#[verifier::spinoff_prover]
proof fn lemma_demote_dense<T>(o: Table<T>, n: Table<T>, id: int)
    requires
        o.wf(),
        0 <= id < o.handles@.len(),
        o.handles@[id].active,
        demoted_state(o, n, id),
    ensures
        n.dense(),
        forall|jd: int|
            0 <= jd < n.handles@.len() ==> (#[trigger] n.handles@[jd]).length >= 1,
        n.idle_data@.len() + n.active_data@.len() <= usize::MAX,
{
    let s = o.handles@[id].partition_slot as int;
    let off = o.handles@[id].array_offset as int;
    let len = o.handles@[id].length as int;
    let ic0 = o.idle_count as int;
    let pos = ic0 + s;
    let rlen = o.registry@.len() as int;
    let hh = n.handles@[id];
    o.lemma_id_position(id);
    o.lemma_arena_binds(id);
    o.registry@.remove_ensures(pos);
    o.registry@.remove(pos).insert_ensures(ic0, id as usize);
    assert(n.registry@.len() == rlen);
    assert(o.active_data@.subrange(off, off + len).len() == len);

    assert forall|p: int| 0 <= p < rlen implies #[trigger] n.registry@[p] == (if p < ic0 {
        o.registry@[p]
    } else if p == ic0 {
        id as usize
    } else if p <= pos {
        o.registry@[p - 1]
    } else {
        o.registry@[p]
    }) by {
        if p < ic0 {
            assert(n.registry@[p] == o.registry@.remove(pos)[p]);
        } else if p > ic0 {
            assert(n.registry@[p] == o.registry@.remove(pos)[p - 1]);
        }
    }
    assert forall|p: int| 0 <= p < rlen && p != pos implies (#[trigger] o.registry@[p]) != id
        && o.registry@[p] < o.handles@.len() && o.entry(p) == o.handles@[
        o.registry@[p] as int] by {
        o.lemma_position_unique(p);
    }
    assert forall|p: int| 0 <= p < rlen implies #[trigger] n.entry(p) == (if p < ic0 {
        o.entry(p)
    } else if p == ic0 {
        hh
    } else if p <= pos {
        o.entry(p - 1)
    } else {
        compacted(o.entry(p), true, s as usize, len as usize)
    }) by {
        if ic0 < p <= pos {
            assert(o.entry(p - 1).active && o.entry(p - 1).partition_slot == p - 1 - ic0) by {
                o.lemma_position_unique(p - 1);
            }
        }
    }

    // Idle side: the old idle entries are untouched and the demoted entry
    // sits at the tail.
    if ic0 > 0 {
        assert(n.entry(0).array_offset == 0);
        assert(o.entry(ic0 - 1).array_offset + o.entry(ic0 - 1).length == o.idle_data@.len());
    }
    assert forall|p: int, r: int|
        #![trigger n.entry(p), n.entry(r)]
        1 <= p < n.idle_count && r == p - 1 implies n.entry(p).array_offset == n.entry(
        r,
    ).array_offset + n.entry(r).length by {
        if p < ic0 {
            assert(o.entry(p).array_offset == o.entry(r).array_offset + o.entry(r).length);
        } else {
            assert(p == ic0);
            if ic0 > 0 {
                assert(o.entry(ic0 - 1).array_offset + o.entry(ic0 - 1).length
                    == o.idle_data@.len());
            }
        }
    }
    assert(n.entry(n.idle_count - 1) == hh);
    assert(hh.array_offset + hh.length == n.idle_data@.len());

    // Active side.
    if n.active_count > 0 {
        assert(n.entry(n.idle_count as int).array_offset == 0) by {
            if s > 0 {
                assert(n.entry(ic0 + 1) == o.entry(ic0));
                assert(o.entry(ic0).array_offset == 0);
            } else {
                assert(n.entry(ic0 + 1) == compacted(
                    o.entry(ic0 + 1),
                    true,
                    s as usize,
                    len as usize,
                ));
                assert(o.entry(ic0 + 1).array_offset == o.entry(ic0).array_offset + o.entry(
                    ic0,
                ).length);
                assert(o.entry(ic0) == o.handles@[id]);
                assert(o.entry(ic0).array_offset == 0);
            }
        }
    }
    assert forall|p: int, r: int|
        #![trigger n.entry(p), n.entry(r)]
        n.idle_count + 1 <= p < rlen && r == p - 1 implies n.entry(p).array_offset == n.entry(
        r,
    ).array_offset + n.entry(r).length by {
        if p <= pos {
            assert(o.entry(p - 1).array_offset == o.entry(p - 2).array_offset + o.entry(
                p - 2,
            ).length);
        } else if p == pos + 1 {
            assert(o.entry(pos + 1).array_offset == o.entry(pos).array_offset + o.entry(
                pos,
            ).length);
            assert(o.entry(pos) == o.handles@[id]);
            if s > 0 {
                assert(o.entry(pos).array_offset == o.entry(pos - 1).array_offset + o.entry(
                    pos - 1,
                ).length);
            }
        } else {
            assert(o.entry(p).array_offset == o.entry(p - 1).array_offset + o.entry(
                p - 1,
            ).length);
            o.lemma_offsets_ordered(pos, r);
            o.lemma_offsets_ordered(pos, p);
        }
    }
    if n.active_count > 0 {
        assert(n.entry(rlen - 1).array_offset + n.entry(rlen - 1).length
            == n.active_data@.len()) by {
            if pos == rlen - 1 {
                assert(n.entry(rlen - 1) == o.entry(rlen - 2));
                assert(o.entry(rlen - 1).array_offset == o.entry(rlen - 2).array_offset
                    + o.entry(rlen - 2).length);
                assert(o.entry(rlen - 1) == o.handles@[id]);
                assert(o.entry(rlen - 1).array_offset + o.entry(rlen - 1).length
                    == o.active_data@.len());
            } else {
                assert(n.entry(rlen - 1) == compacted(
                    o.entry(rlen - 1),
                    true,
                    s as usize,
                    len as usize,
                ));
                assert(o.entry(rlen - 1).array_offset + o.entry(rlen - 1).length
                    == o.active_data@.len());
                o.lemma_offsets_ordered(pos, rlen - 1);
            }
        }
    }
    if n.active_count == 0 {
        assert(o.active_count == 1 && s == 0);
        assert(o.entry(pos) == o.handles@[id]);
        assert(o.entry(pos).array_offset + o.entry(pos).length == o.active_data@.len());
        assert(n.active_data@.len() == 0);
    }

    assert forall|jd: int| 0 <= jd < n.handles@.len() implies (
    #[trigger] n.handles@[jd]).length >= 1 by {
        assert(o.handles@[jd].length >= 1);
    }
}

/// A demotion preserves each entry's record content.
#[verifier::rlimit(100)]
#[verifier::spinoff_prover]
proof fn lemma_demote_records<T>(o: Table<T>, n: Table<T>, id: int)
    requires
        o.wf(),
        0 <= id < o.handles@.len(),
        o.handles@[id].active,
        demoted_state(o, n, id),
    ensures
        forall|j: int| 0 <= j < o.handles@.len() ==> n.handle_records(j) == o.handle_records(j),
{
    let s = o.handles@[id].partition_slot as int;
    let off = o.handles@[id].array_offset as int;
    let len = o.handles@[id].length as int;
    o.lemma_arena_binds(id);
    assert forall|j: int| 0 <= j < o.handles@.len() implies n.handle_records(j)
        == o.handle_records(j) by {
        o.lemma_arena_binds(j);
        let hj = o.handles@[j];
        if j == id {
            assert(n.handle_records(j) =~= o.handle_records(j));
        } else if !hj.active {
            assert(n.handles@[j] == hj);
            assert(n.handle_records(j) =~= o.handle_records(j)) by {
                assert forall|k: int| 0 <= k < hj.length implies #[trigger] n.idle_data@[
                    hj.array_offset + k
                ] == o.idle_data@[hj.array_offset + k] by {
                    assert(hj.array_offset + k < o.idle_data@.len());
                }
            }
        } else if hj.partition_slot < s {
            assert(n.handles@[j] == hj);
            o.lemma_disjoint_regions(j, id);
            assert(n.handle_records(j) =~= o.handle_records(j)) by {
                assert forall|k: int| 0 <= k < hj.length implies #[trigger] n.active_data@[
                    hj.array_offset + k
                ] == o.active_data@[hj.array_offset + k] by {
                    assert(hj.array_offset + k < off);
                }
            }
        } else {
            assert(hj.partition_slot != s) by {
                o.lemma_id_position(id);
                o.lemma_id_position(j);
            }
            o.lemma_disjoint_regions(id, j);
            assert(n.handles@[j] == compacted(hj, true, s as usize, len as usize));
            assert(n.handle_records(j) =~= o.handle_records(j)) by {
                assert forall|k: int| 0 <= k < hj.length implies #[trigger] n.active_data@[
                    hj.array_offset - len + k
                ] == o.active_data@[hj.array_offset + k] by {
                    assert(off + len <= hj.array_offset + k < o.active_data@.len());
                }
            }
        }
    }
}

impl<T> Table<T> {
    /// Stamps every touched entry with the tick's clock reading; nothing
    /// else changes.
    fn refresh_touched(&mut self, touched: &Vec<usize>, now: u128)
        requires
            old(self).wf(),
            forall|i: int|
                0 <= i < touched@.len() ==> (#[trigger] touched@[i]) < old(self).handles@.len(),
        ensures
            final(self).wf(),
            final(self).registry@ == old(self).registry@,
            final(self).idle_count == old(self).idle_count,
            final(self).active_count == old(self).active_count,
            final(self).idle_data@ == old(self).idle_data@,
            final(self).active_data@ == old(self).active_data@,
            final(self).handles@.len() == old(self).handles@.len(),
            forall|j: int|
                0 <= j < old(self).handles@.len() ==> final(self).handles@[j] == (
                if touched@.contains(j as usize) {
                    Handle { last_touch: now, ..old(self).handles@[j] }
                } else {
                    old(self).handles@[j]
                }),
            forall|j: int|
                0 <= j < old(self).handles@.len() ==> final(self).handle_records(j) == old(
                    self,
                ).handle_records(j),
    {
        let ghost o = *old(self);
        proof {
            assert(o.handles@.len() == o.handles.len());
        }
        let mut i: usize = 0;
        while i < touched.len()
            invariant
                i <= touched@.len(),
                o.handles@.len() <= usize::MAX,
                forall|w: int|
                    0 <= w < touched@.len() ==> (#[trigger] touched@[w]) < o.handles@.len(),
                self.registry@ == o.registry@,
                self.idle_count == o.idle_count,
                self.active_count == o.active_count,
                self.idle_data@ == o.idle_data@,
                self.active_data@ == o.active_data@,
                self.handles@.len() == o.handles@.len(),
                forall|j: int|
                    0 <= j < o.handles@.len() ==> #[trigger] self.handles@[j] == (
                    if among(touched@, 0, j as usize) && (exists|w: int|
                        0 <= w < i && touched@[w] == j) {
                        Handle { last_touch: now, ..o.handles@[j] }
                    } else {
                        o.handles@[j]
                    }),
            decreases touched@.len() - i,
        {
            let jd = touched[i];
            let mut hj = self.handles[jd];
            hj.last_touch = now;
            self.handles[jd] = hj;
            proof {
                assert(among(touched@, 0, jd)) by {
                    assert(touched@[i as int] == jd);
                }
                assert forall|j: int| 0 <= j < o.handles@.len() implies #[trigger] self.handles@[j]
                    == (if among(touched@, 0, j as usize) && (exists|w: int|
                    0 <= w < i + 1 && touched@[w] == j) {
                    Handle { last_touch: now, ..o.handles@[j] }
                } else {
                    o.handles@[j]
                }) by {
                    if j == jd {
                        assert(exists|w: int| 0 <= w < i + 1 && touched@[w] == j) by {
                            assert(touched@[i as int] == j);
                        }
                    } else {
                        if exists|w: int| 0 <= w < i + 1 && touched@[w] == j {
                            let w = choose|w: int| 0 <= w < i + 1 && touched@[w] == j;
                            assert(w < i);
                            assert(exists|w2: int| 0 <= w2 < i && touched@[w2] == j);
                        }
                    }
                }
            }
            i = i + 1;
        }
        proof {
            assert forall|j: int| 0 <= j < o.handles@.len() implies #[trigger] self.handles@[j]
                == (if touched@.contains(j as usize) {
                Handle { last_touch: now, ..o.handles@[j] }
            } else {
                o.handles@[j]
            }) by {
                if touched@.contains(j as usize) {
                    let w = choose|w: int| 0 <= w < touched@.len() && touched@[w] == j as usize;
                    assert(among(touched@, 0, j as usize));
                    assert(exists|w2: int| 0 <= w2 < i && touched@[w2] == j);
                } else {
                    assert(!among(touched@, 0, j as usize)) by {
                        if among(touched@, 0, j as usize) {
                            let w = choose|w: int|
                                0 <= w < touched@.len() && touched@[w] == j as usize;
                            assert(touched@.contains(j as usize));
                        }
                    }
                }
            }
            o.lemma_retouch_wf(*self);
        }
    }

    /// Collects the touched entries that are currently idle, in ascending
    /// slot order: the candidates for promotion.
    fn collect_idle_touched(&self, touched: &Vec<usize>) -> (promos: Vec<usize>)
        requires
            self.wf(),
        ensures
            forall|k: int|
                0 <= k < promos@.len() ==> (#[trigger] promos@[k]) < self.handles@.len() && !self
                    .handles@[promos@[k] as int].active && touched@.contains(promos@[k]),
            forall|k1: int, k2: int|
                0 <= k1 < k2 < promos@.len() ==> self.handles@[#[trigger] promos@[
                    k1] as int].partition_slot < self.handles@[#[trigger] promos@[
                    k2] as int].partition_slot,
            forall|j: int|
                0 <= j < self.handles@.len() && !(#[trigger] self.handles@[j]).active && touched@
                    .contains(j as usize) ==> among(promos@, 0, j as usize),
            promos@.len() == 0 ==> forall|j: int|
                0 <= j < self.handles@.len() && !(#[trigger] self.handles@[j]).active
                    ==> !touched@.contains(j as usize),
    {
        let mut promos: Vec<usize> = Vec::new();
        let mut p: usize = 0;
        while p < self.idle_count
            invariant
                p <= self.idle_count,
                self.wf(),
                forall|k: int|
                    0 <= k < promos@.len() ==> (#[trigger] promos@[k]) < self.handles@.len()
                        && !self.handles@[promos@[k] as int].active && touched@.contains(
                        promos@[k]) && self.handles@[promos@[k] as int].partition_slot < p,
                forall|k1: int, k2: int|
                    0 <= k1 < k2 < promos@.len() ==> self.handles@[#[trigger] promos@[
                        k1] as int].partition_slot < self.handles@[#[trigger] promos@[
                        k2] as int].partition_slot,
                forall|q: int|
                    0 <= q < p && touched@.contains(#[trigger] self.registry@[q]) ==> among(
                        promos@,
                        0,
                        self.registry@[q],
                    ),
            decreases self.idle_count - p,
        {
            let jd = self.registry[p];
            proof {
                self.lemma_position_unique(p as int);
            }
            let ghost before = promos@;
            if contains_id(touched, jd) {
                promos.push(jd);
            }
            proof {
                assert forall|q: int|
                    0 <= q < p + 1 && touched@.contains(#[trigger] self.registry@[q]) implies among(
                    promos@,
                    0,
                    self.registry@[q],
                ) by {
                    if q < p {
                        assert(among(before, 0, self.registry@[q]));
                        let w = choose|w: int|
                            0 <= w < before.len() && before[w] == self.registry@[q];
                        assert(promos@[w] == self.registry@[q]);
                    } else {
                        assert(promos@[promos@.len() - 1] == jd);
                    }
                }
            }
            p = p + 1;
        }
        proof {
            assert forall|j: int|
                0 <= j < self.handles@.len() && !(#[trigger] self.handles@[j]).active && touched@
                    .contains(j as usize) implies among(promos@, 0, j as usize) by {
                self.lemma_id_position(j);
                assert(self.registry@[self.handles@[j].partition_slot as int] == j);
            }
            if promos@.len() == 0 {
                assert forall|j: int|
                    0 <= j < self.handles@.len() && !(#[trigger] self.handles@[j]).active implies !touched@.contains(j as usize) by {
                    if touched@.contains(j as usize) {
                        assert(among(promos@, 0, j as usize));
                        let w = choose|w: int|
                            0 <= w < promos@.len() && promos@[w] == j as usize;
                    }
                }
            }
        }
        promos
    }

    /// Promotes the given idle entries, highest slot first, so earlier
    /// compaction shifts never invalidate a slot yet to be processed.
    /// Returns the partial-write start marker: the lowest idle offset
    /// disturbed, or nothing when only tail regions were detached.
    #[verifier::rlimit(100)]
    #[verifier::spinoff_prover]
    fn promote_batch(&mut self, promos: &Vec<usize>) -> (marker: Option<usize>)
        requires
            old(self).wf(),
            forall|k: int|
                0 <= k < promos@.len() ==> (#[trigger] promos@[k]) < old(self).handles@.len()
                    && !old(self).handles@[promos@[k] as int].active,
            forall|k1: int, k2: int|
                0 <= k1 < k2 < promos@.len() ==> old(self).handles@[#[trigger] promos@[
                    k1] as int].partition_slot < old(self).handles@[#[trigger] promos@[
                    k2] as int].partition_slot,
        ensures
            final(self).wf(),
            final(self).handles@.len() == old(self).handles@.len(),
            final(self).idle_count == old(self).idle_count - promos@.len(),
            final(self).active_count == old(self).active_count + promos@.len(),
            final(self).idle_data@.len() <= old(self).idle_data@.len(),
            final(self).idle_data@.len() + final(self).active_data@.len() == old(
                self,
            ).idle_data@.len() + old(self).active_data@.len(),
            forall|j: int|
                0 <= j < old(self).handles@.len() ==> final(self).handle_records(j) == old(
                    self,
                ).handle_records(j),
            forall|j: int|
                0 <= j < old(self).handles@.len() ==> {
                    &&& (#[trigger] final(self).handles@[j]).length == old(self).handles@[j].length
                    &&& final(self).handles@[j].idle_threshold == old(self).handles@[
                        j].idle_threshold
                    &&& final(self).handles@[j].last_touch == old(self).handles@[j].last_touch
                    &&& final(self).handles@[j].active == (old(self).handles@[j].active || among(
                        promos@,
                        0,
                        j as usize,
                    ))
                },
            forall|j: int|
                0 <= j < old(self).handles@.len() && old(self).handles@[j].active ==> (
                #[trigger] final(self).handles@[j]).partition_slot == old(self).handles@[
                    j].partition_slot && final(self).handles@[j].array_offset == old(
                    self,
                ).handles@[j].array_offset,
            forall|w: int|
                0 <= w < promos@.len() ==> final(self).handles@[#[trigger] promos@[
                    w] as int].partition_slot == old(self).active_count + promos@.len() - 1 - w,
            forall|j1: int, j2: int|
                #![trigger final(self).handles@[j1], final(self).handles@[j2]]
                0 <= j1 < old(self).handles@.len() && 0 <= j2 < old(self).handles@.len() && !old(
                    self,
                ).handles@[j1].active && !old(self).handles@[j2].active && !among(
                    promos@,
                    0,
                    j1 as usize,
                ) && !among(promos@, 0, j2 as usize) && old(self).handles@[j1].partition_slot
                    < old(self).handles@[j2].partition_slot
                    ==> final(self).handles@[j1].partition_slot
                    < final(self).handles@[j2].partition_slot,
            match marker {
                None => final(self).idle_data@ == old(self).idle_data@.subrange(
                    0,
                    final(self).idle_data@.len() as int,
                ),
                Some(m) => m <= final(self).idle_data@.len() && m <= old(self).idle_data@.len()
                    && final(self).idle_data@.subrange(0, m as int) == old(
                    self,
                ).idle_data@.subrange(0, m as int),
            },
            promos@.len() == 0 ==> final(self).handles@ == old(self).handles@
                && final(self).registry@ == old(self).registry@
                && final(self).idle_data@ == old(self).idle_data@
                && final(self).active_data@ == old(self).active_data@
                && marker == None::<usize>,
    {
        let ghost o = *old(self);
        proof {
            assert(o.handles@.len() == o.handles.len());
        }
        let mut marker: Option<usize> = None;
        let n = promos.len();
        if n == 0 {
            proof {
                assert(o.idle_data@ =~= o.idle_data@.subrange(0, o.idle_data@.len() as int));
            }
            return marker;
        }
        let mut k = n;
        while k > 0
            invariant
                0 <= k <= n,
                n == promos@.len(),
                o.handles@.len() <= usize::MAX,
                forall|w: int|
                    0 <= w < promos@.len() ==> (#[trigger] promos@[w]) < o.handles@.len()
                        && !o.handles@[promos@[w] as int].active,
                forall|k1: int, k2: int|
                    0 <= k1 < k2 < promos@.len() ==> o.handles@[#[trigger] promos@[
                        k1] as int].partition_slot < o.handles@[#[trigger] promos@[
                        k2] as int].partition_slot,
                self.wf(),
                self.handles@.len() == o.handles@.len(),
                self.idle_count == o.idle_count - (n - k),
                self.active_count == o.active_count + (n - k),
                self.idle_data@.len() <= o.idle_data@.len(),
                self.idle_data@.len() + self.active_data@.len() == o.idle_data@.len()
                    + o.active_data@.len(),
                forall|j: int|
                    0 <= j < o.handles@.len() ==> self.handle_records(j) == o.handle_records(j),
                forall|j: int|
                    0 <= j < o.handles@.len() ==> {
                        &&& (#[trigger] self.handles@[j]).length == o.handles@[j].length
                        &&& self.handles@[j].idle_threshold == o.handles@[j].idle_threshold
                        &&& self.handles@[j].last_touch == o.handles@[j].last_touch
                        &&& self.handles@[j].active == (o.handles@[j].active || among(
                            promos@,
                            k as int,
                            j as usize,
                        ))
                        &&& o.handles@[j].active ==> self.handles@[j].partition_slot
                            == o.handles@[j].partition_slot && self.handles@[j].array_offset
                            == o.handles@[j].array_offset
                    },
                forall|w: int|
                    k <= w < n ==> self.handles@[#[trigger] promos@[w] as int].partition_slot
                        == o.active_count + n - 1 - w,
                forall|j1: int, j2: int|
                    #![trigger self.handles@[j1], self.handles@[j2]]
                    0 <= j1 < o.handles@.len() && 0 <= j2 < o.handles@.len()
                        && !o.handles@[j1].active && !o.handles@[j2].active && !among(
                        promos@,
                        k as int,
                        j1 as usize,
                    ) && !among(promos@, k as int, j2 as usize) && o.handles@[j1].partition_slot
                        < o.handles@[j2].partition_slot ==> self.handles@[j1].partition_slot
                        < self.handles@[j2].partition_slot,
                match marker {
                    None => self.idle_data@ == o.idle_data@.subrange(
                        0,
                        self.idle_data@.len() as int,
                    ),
                    Some(m) => m <= self.idle_data@.len() && m <= o.idle_data@.len()
                        && self.idle_data@.subrange(0, m as int) == o.idle_data@.subrange(
                        0,
                        m as int,
                    ),
                },
            decreases k,
        {
            k = k - 1;
            let jd = promos[k];
            proof {
                assert(!among(promos@, k + 1, jd)) by {
                    if among(promos@, k + 1, jd) {
                        let w = choose|w: int|
                            k + 1 <= w < promos@.len() && promos@[w] == jd;
                        assert(o.handles@[promos@[k as int] as int].partition_slot < o.handles@[
                            promos@[w] as int].partition_slot);
                    }
                }
                assert(!self.handles@[jd as int].active);
                self.lemma_id_position(jd as int);
            }
            let h = self.handles[jd];
            let was_last = h.partition_slot == self.idle_count - 1;
            let off = h.array_offset;
            let ghost b = *self;
            self.promote(jd);
            marker = match marker {
                None => if was_last {
                    None
                } else {
                    Some(off)
                },
                Some(m) => Some(if off < m {
                    off
                } else {
                    m
                }),
            };
            proof {
                let len = b.handles@[jd as int].length as int;
                let s_jd = b.handles@[jd as int].partition_slot;
                b.lemma_arena_binds(jd as int);
                assert forall|j: int| 0 <= j < o.handles@.len() implies {
                    &&& (#[trigger] self.handles@[j]).length == o.handles@[j].length
                    &&& self.handles@[j].idle_threshold == o.handles@[j].idle_threshold
                    &&& self.handles@[j].last_touch == o.handles@[j].last_touch
                    &&& self.handles@[j].active == (o.handles@[j].active || among(
                        promos@,
                        k as int,
                        j as usize,
                    ))
                    &&& o.handles@[j].active ==> self.handles@[j].partition_slot == o.handles@[
                        j].partition_slot && self.handles@[j].array_offset == o.handles@[
                        j].array_offset
                } by {
                    lemma_among_step(promos@, k as int, j as usize);
                    if j == jd {
                        assert(among(promos@, k as int, j as usize));
                    } else {
                        assert(self.handles@[j] == compacted(
                            b.handles@[j],
                            false,
                            b.handles@[jd as int].partition_slot,
                            b.handles@[jd as int].length,
                        ));
                    }
                }
                assert forall|w: int| k <= w < n implies self.handles@[#[trigger] promos@[
                    w] as int].partition_slot == o.active_count + n - 1 - w by {
                    if w == k {
                        assert(promos@[w] == jd);
                    } else {
                        assert(among(promos@, k + 1, promos@[w] as usize)) by {
                            assert(k + 1 <= w < promos@.len() && promos@[w] == promos@[w]);
                        }
                        assert(b.handles@[promos@[w] as int].active);
                        assert(promos@[w] != jd);
                        assert(self.handles@[promos@[w] as int] == compacted(
                            b.handles@[promos@[w] as int],
                            false,
                            b.handles@[jd as int].partition_slot,
                            b.handles@[jd as int].length,
                        ));
                    }
                }
                assert forall|j1: int, j2: int|
                    #![trigger self.handles@[j1], self.handles@[j2]]
                    0 <= j1 < o.handles@.len() && 0 <= j2 < o.handles@.len()
                        && !o.handles@[j1].active && !o.handles@[j2].active && !among(
                        promos@,
                        k as int,
                        j1 as usize,
                    ) && !among(promos@, k as int, j2 as usize) && o.handles@[j1].partition_slot
                        < o.handles@[j2].partition_slot implies self.handles@[
                    j1].partition_slot < self.handles@[j2].partition_slot by {
                    lemma_among_step(promos@, k as int, j1 as usize);
                    lemma_among_step(promos@, k as int, j2 as usize);
                    assert(j1 != jd && j2 != jd);
                    assert(!b.handles@[j1 as int].active && !b.handles@[j2 as int].active);
                    b.lemma_id_position(j1);
                    b.lemma_id_position(j2);
                    b.lemma_id_position(jd as int);
                    assert(b.handles@[j1].partition_slot != s_jd && b.handles@[j2].partition_slot
                        != s_jd);
                    assert(self.handles@[j1] == compacted(b.handles@[j1], false, s_jd, b.handles@[
                        jd as int].length));
                    assert(self.handles@[j2] == compacted(b.handles@[j2], false, s_jd, b.handles@[
                        jd as int].length));
                }
                // The marker still bounds an undisturbed idle prefix.
                let bl = b.idle_data@.len() as int;
                let offi = off as int;
                assert(b.idle_data@.subrange(0, offi) == self.idle_data@.subrange(0, offi));
                if was_last {
                    assert(offi + len == bl) by {
                        b.lemma_id_position(jd as int);
                        assert(b.entry(b.idle_count - 1) == b.handles@[jd as int]);
                    }
                }
                match marker {
                    None => {
                        assert(self.idle_data@ =~= o.idle_data@.subrange(
                            0,
                            self.idle_data@.len() as int,
                        ));
                    },
                    Some(m) => {
                        assert(self.idle_data@.subrange(0, m as int) =~= o.idle_data@.subrange(
                            0,
                            m as int,
                        ));
                    },
                }
            }
        }
        marker
    }

    /// Demotes the given active entries, highest slot first; their records
    /// are appended to the idle array in processing order, so the idle
    /// array only grows at its tail.
    #[verifier::rlimit(100)]
    #[verifier::spinoff_prover]
    fn demote_batch(&mut self, stale: &Vec<usize>)
        requires
            old(self).wf(),
            forall|k: int|
                0 <= k < stale@.len() ==> (#[trigger] stale@[k]) < old(self).handles@.len() && old(
                    self,
                ).handles@[stale@[k] as int].active,
            forall|k1: int, k2: int|
                0 <= k1 < k2 < stale@.len() ==> old(self).handles@[#[trigger] stale@[
                    k1] as int].partition_slot < old(self).handles@[#[trigger] stale@[
                    k2] as int].partition_slot,
        ensures
            final(self).wf(),
            final(self).handles@.len() == old(self).handles@.len(),
            final(self).idle_count == old(self).idle_count + stale@.len(),
            final(self).active_count == old(self).active_count - stale@.len(),
            final(self).idle_data@.len() >= old(self).idle_data@.len(),
            final(self).idle_data@.len() + final(self).active_data@.len() == old(
                self,
            ).idle_data@.len() + old(self).active_data@.len(),
            final(self).idle_data@.subrange(0, old(self).idle_data@.len() as int) == old(
                self,
            ).idle_data@,
            forall|j: int|
                0 <= j < old(self).handles@.len() ==> final(self).handle_records(j) == old(
                    self,
                ).handle_records(j),
            forall|j: int|
                0 <= j < old(self).handles@.len() ==> {
                    &&& (#[trigger] final(self).handles@[j]).length == old(self).handles@[j].length
                    &&& final(self).handles@[j].idle_threshold == old(self).handles@[
                        j].idle_threshold
                    &&& final(self).handles@[j].last_touch == old(self).handles@[j].last_touch
                    &&& final(self).handles@[j].active == (old(self).handles@[j].active && !among(
                        stale@,
                        0,
                        j as usize,
                    ))
                },
            forall|j: int|
                0 <= j < old(self).handles@.len() && !old(self).handles@[j].active ==> (
                #[trigger] final(self).handles@[j]).partition_slot == old(self).handles@[
                    j].partition_slot && final(self).handles@[j].array_offset == old(
                    self,
                ).handles@[j].array_offset,
            forall|w: int|
                0 <= w < stale@.len() ==> final(self).handles@[#[trigger] stale@[
                    w] as int].partition_slot == old(self).idle_count + stale@.len() - 1 - w,
            forall|j1: int, j2: int|
                #![trigger final(self).handles@[j1], final(self).handles@[j2]]
                0 <= j1 < old(self).handles@.len() && 0 <= j2 < old(self).handles@.len() && old(
                    self,
                ).handles@[j1].active && old(self).handles@[j2].active && !among(
                    stale@,
                    0,
                    j1 as usize,
                ) && !among(stale@, 0, j2 as usize) && old(self).handles@[j1].partition_slot
                    < old(self).handles@[j2].partition_slot
                    ==> final(self).handles@[j1].partition_slot
                    < final(self).handles@[j2].partition_slot,
            stale@.len() == 0 ==> final(self).handles@ == old(self).handles@
                && final(self).registry@ == old(self).registry@
                && final(self).idle_data@ == old(self).idle_data@
                && final(self).active_data@ == old(self).active_data@,
    {
        let ghost o = *old(self);
        proof {
            assert(o.handles@.len() == o.handles.len());
        }
        let n = stale.len();
        if n == 0 {
            proof {
                assert(o.idle_data@.subrange(0, o.idle_data@.len() as int) =~= o.idle_data@);
            }
            return ;
        }
        let mut k = n;
        while k > 0
            invariant
                0 <= k <= n,
                n == stale@.len(),
                o.handles@.len() <= usize::MAX,
                forall|w: int|
                    0 <= w < stale@.len() ==> (#[trigger] stale@[w]) < o.handles@.len()
                        && o.handles@[stale@[w] as int].active,
                forall|k1: int, k2: int|
                    0 <= k1 < k2 < stale@.len() ==> o.handles@[#[trigger] stale@[
                        k1] as int].partition_slot < o.handles@[#[trigger] stale@[
                        k2] as int].partition_slot,
                self.wf(),
                self.handles@.len() == o.handles@.len(),
                self.idle_count == o.idle_count + (n - k),
                self.active_count == o.active_count - (n - k),
                self.idle_data@.len() >= o.idle_data@.len(),
                self.idle_data@.len() + self.active_data@.len() == o.idle_data@.len()
                    + o.active_data@.len(),
                self.idle_data@.subrange(0, o.idle_data@.len() as int) == o.idle_data@,
                forall|j: int|
                    0 <= j < o.handles@.len() ==> self.handle_records(j) == o.handle_records(j),
                forall|j: int|
                    0 <= j < o.handles@.len() ==> {
                        &&& (#[trigger] self.handles@[j]).length == o.handles@[j].length
                        &&& self.handles@[j].idle_threshold == o.handles@[j].idle_threshold
                        &&& self.handles@[j].last_touch == o.handles@[j].last_touch
                        &&& self.handles@[j].active == (o.handles@[j].active && !among(
                            stale@,
                            k as int,
                            j as usize,
                        ))
                        &&& !o.handles@[j].active ==> self.handles@[j].partition_slot
                            == o.handles@[j].partition_slot && self.handles@[j].array_offset
                            == o.handles@[j].array_offset
                    },
                forall|w: int|
                    k <= w < n ==> self.handles@[#[trigger] stale@[w] as int].partition_slot
                        == o.idle_count + n - 1 - w,
                forall|j1: int, j2: int|
                    #![trigger self.handles@[j1], self.handles@[j2]]
                    0 <= j1 < o.handles@.len() && 0 <= j2 < o.handles@.len()
                        && o.handles@[j1].active && o.handles@[j2].active && !among(
                        stale@,
                        k as int,
                        j1 as usize,
                    ) && !among(stale@, k as int, j2 as usize) && o.handles@[j1].partition_slot
                        < o.handles@[j2].partition_slot ==> self.handles@[j1].partition_slot
                        < self.handles@[j2].partition_slot,
            decreases k,
        {
            k = k - 1;
            let jd = stale[k];
            proof {
                assert(!among(stale@, k + 1, jd)) by {
                    if among(stale@, k + 1, jd) {
                        let w = choose|w: int| k + 1 <= w < stale@.len() && stale@[w] == jd;
                        assert(o.handles@[stale@[k as int] as int].partition_slot < o.handles@[
                            stale@[w] as int].partition_slot);
                    }
                }
                assert(self.handles@[jd as int].active);
            }
            let ghost b = *self;
            self.demote(jd);
            proof {
                let s_jd = b.handles@[jd as int].partition_slot;
                b.lemma_arena_binds(jd as int);
                assert forall|j: int| 0 <= j < o.handles@.len() implies {
                    &&& (#[trigger] self.handles@[j]).length == o.handles@[j].length
                    &&& self.handles@[j].idle_threshold == o.handles@[j].idle_threshold
                    &&& self.handles@[j].last_touch == o.handles@[j].last_touch
                    &&& self.handles@[j].active == (o.handles@[j].active && !among(
                        stale@,
                        k as int,
                        j as usize,
                    ))
                    &&& !o.handles@[j].active ==> self.handles@[j].partition_slot == o.handles@[
                        j].partition_slot && self.handles@[j].array_offset == o.handles@[
                        j].array_offset
                } by {
                    lemma_among_step(stale@, k as int, j as usize);
                    if j == jd {
                        assert(among(stale@, k as int, j as usize));
                    } else {
                        assert(self.handles@[j] == compacted(
                            b.handles@[j],
                            true,
                            b.handles@[jd as int].partition_slot,
                            b.handles@[jd as int].length,
                        ));
                    }
                }
                assert forall|w: int| k <= w < n implies self.handles@[#[trigger] stale@[
                    w] as int].partition_slot == o.idle_count + n - 1 - w by {
                    if w == k {
                        assert(stale@[w] == jd);
                    } else {
                        assert(among(stale@, k + 1, stale@[w] as usize)) by {
                            assert(k + 1 <= w < stale@.len() && stale@[w] == stale@[w]);
                        }
                        assert(!b.handles@[stale@[w] as int].active);
                        assert(stale@[w] != jd);
                        assert(self.handles@[stale@[w] as int] == compacted(
                            b.handles@[stale@[w] as int],
                            true,
                            b.handles@[jd as int].partition_slot,
                            b.handles@[jd as int].length,
                        ));
                    }
                }
                assert forall|j1: int, j2: int|
                    #![trigger self.handles@[j1], self.handles@[j2]]
                    0 <= j1 < o.handles@.len() && 0 <= j2 < o.handles@.len()
                        && o.handles@[j1].active && o.handles@[j2].active && !among(
                        stale@,
                        k as int,
                        j1 as usize,
                    ) && !among(stale@, k as int, j2 as usize) && o.handles@[j1].partition_slot
                        < o.handles@[j2].partition_slot implies self.handles@[
                    j1].partition_slot < self.handles@[j2].partition_slot by {
                    lemma_among_step(stale@, k as int, j1 as usize);
                    lemma_among_step(stale@, k as int, j2 as usize);
                    assert(j1 != jd && j2 != jd);
                    assert(b.handles@[j1 as int].active && b.handles@[j2 as int].active);
                    b.lemma_id_position(j1);
                    b.lemma_id_position(j2);
                    b.lemma_id_position(jd as int);
                    assert(b.handles@[j1].partition_slot != s_jd && b.handles@[j2].partition_slot
                        != s_jd);
                    assert(self.handles@[j1] == compacted(b.handles@[j1], true, s_jd, b.handles@[
                        jd as int].length));
                    assert(self.handles@[j2] == compacted(b.handles@[j2], true, s_jd, b.handles@[
                        jd as int].length));
                }
                assert(self.idle_data@.subrange(0, o.idle_data@.len() as int)
                    =~= o.idle_data@) by {
                    assert(self.idle_data@.subrange(0, b.idle_data@.len() as int)
                        == b.idle_data@);
                }
            }
        }
    }
}

/// One write the synchronizer asks of the mirror buffer: `data` replaces
/// the records starting `offset` records into the buffer.
#[derive(Debug, PartialEq)]
pub struct MirrorWrite<T> {
    /// Destination offset, in records, into the mirror buffer.
    pub offset: usize,
    /// The records to store there.
    pub data: Vec<T>,
}

/// The mirror buffer is too small for a requested write: the caller must
/// resize it to `needed` records and retry the whole tick.
#[derive(Clone, Copy, Debug, PartialEq, Eq, Structural)]
pub struct CapacityError {
    /// Records the buffer must hold for the write to fit.  Saturated when
    /// the true requirement exceeds the address space.
    pub needed: usize,
    /// Records the buffer holds now.
    pub have: usize,
}

/// The content of a mirror of `m` after one write of `d` at `off`; a
/// write that would not fit changes nothing.
pub open spec fn write_seq<T>(m: Seq<T>, off: int, d: Seq<T>) -> Seq<T> {
    if 0 <= off && off + d.len() <= m.len() {
        m.subrange(0, off) + d + m.subrange(off + d.len(), m.len() as int)
    } else {
        m
    }
}

/// The content of a mirror of `m` after the writes `ws`, applied in order.
pub open spec fn apply_writes<T>(m: Seq<T>, ws: Seq<MirrorWrite<T>>) -> Seq<T>
    decreases ws.len(),
{
    if ws.len() == 0 {
        m
    } else {
        apply_writes(write_seq(m, ws[0].offset as int, ws[0].data@), ws.skip(1))
    }
}

impl<T: Copy> MirrorWrite<T> {
    /// Applies this write to an in-memory mirror, as the device-side sink
    /// would.  A write past the mirror's end is refused whole: the caller
    /// resizes and retries, nothing is truncated.
    pub fn apply(&self, mirror: &mut Vec<T>) -> (r: Result<(), CapacityError>)
        ensures
            match r {
                Ok(()) => self.offset + self.data@.len() <= old(mirror)@.len()
                    && final(mirror)@ == write_seq(old(mirror)@, self.offset as int, self.data@),
                Err(e) => final(mirror)@ == old(mirror)@
                    && self.offset + self.data@.len() > old(mirror)@.len()
                    && e.have == old(mirror)@.len() && e.needed == (
                if self.offset + self.data@.len() <= usize::MAX {
                    self.offset + self.data@.len()
                } else {
                    usize::MAX as int
                }),
            },
    {
        let dl = self.data.len();
        let ml = mirror.len();
        if dl > ml || self.offset > ml - dl {
            let needed = if self.offset > usize::MAX - dl {
                usize::MAX
            } else {
                self.offset + dl
            };
            return Err(CapacityError { needed, have: ml });
        }
        let mut k: usize = 0;
        while k < dl
            invariant
                k <= dl,
                dl == self.data@.len(),
                self.offset + dl <= mirror@.len(),
                mirror@.len() == old(mirror)@.len(),
                mirror@.len() <= usize::MAX,
                forall|i: int|
                    0 <= i < mirror@.len() && !(self.offset <= i < self.offset + k)
                        ==> #[trigger] mirror@[i] == old(mirror)@[i],
                forall|i: int|
                    0 <= i < k ==> #[trigger] mirror@[self.offset + i] == self.data@[i],
            decreases dl - k,
        {
            mirror[self.offset + k] = self.data[k];
            k = k + 1;
        }
        proof {
            assert(mirror@ =~= write_seq(old(mirror)@, self.offset as int, self.data@)) by {
                assert forall|i: int| 0 <= i < self.data@.len() implies mirror@[self.offset + i]
                    == self.data@[i] by {
                    assert(mirror@[self.offset + i] == self.data@[i]);
                }
            }
        }
        Ok(())
    }
}

impl<T> Table<T> {
    /// Sum of the demotion pressures, at time `now`, of the entries with
    /// ids below `k` that the touched set does not name.
    pub open spec fn pressure_sum_below(self, touched: Seq<usize>, now: u128, k: int) -> int
        decreases k,
    {
        if k <= 0 {
            0
        } else {
            self.pressure_sum_below(touched, now, k - 1) + if touched.contains((k - 1) as usize) {
                0
            } else {
                self.handles@[k - 1].spec_pressure(now)
            }
        }
    }

    /// Sum of the demotion pressures of every entry the touched set does
    /// not name; the quantity a tick holds against the demotion threshold.
    pub open spec fn untouched_pressure(self, touched: Seq<usize>, now: u128) -> int {
        self.pressure_sum_below(touched, now, self.handles@.len() as int)
    }

    /// Sum of the demotion pressures of every entry.
    pub open spec fn total_pressure(self, now: u128) -> int {
        self.untouched_pressure(Seq::<usize>::empty(), now)
    }
}

/// A pressure sum only reads each counted entry's pressure: two tables
/// whose uncounted-or-touched entries may differ arbitrarily, but whose
/// counted entries agree in pressure, have the same sum.
proof fn lemma_pressure_sum_pointwise<T>(
    a: Table<T>,
    b: Table<T>,
    touched: Seq<usize>,
    now: u128,
    k: int,
)
    requires
        forall|j: int|
            0 <= j < k && !touched.contains(j as usize) ==> a.handles@[j].spec_pressure(now)
                == b.handles@[j].spec_pressure(now),
    ensures
        a.pressure_sum_below(touched, now, k) == b.pressure_sum_below(touched, now, k),
    decreases k,
{
    if k > 0 {
        lemma_pressure_sum_pointwise(a, b, touched, now, k - 1);
    }
}

/// A sum of pressures that are all zero is zero.
proof fn lemma_pressure_sum_zero<T>(t: Table<T>, touched: Seq<usize>, now: u128, k: int)
    requires
        forall|j: int|
            0 <= j < k && !touched.contains(j as usize) ==> t.handles@[j].spec_pressure(now) == 0,
    ensures
        t.pressure_sum_below(touched, now, k) == 0,
    decreases k,
{
    if k > 0 {
        lemma_pressure_sum_zero(t, touched, now, k - 1);
    }
}

/// Every pressure sum is non-negative.
proof fn lemma_pressure_sum_nonneg<T>(t: Table<T>, touched: Seq<usize>, now: u128, k: int)
    ensures
        t.pressure_sum_below(touched, now, k) >= 0,
    decreases k,
{
    if k > 0 {
        lemma_pressure_sum_nonneg(t, touched, now, k - 1);
    }
}

/// Excluding entries whose pressure is zero anyway leaves a sum as it is.
proof fn lemma_pressure_sum_drop_zeroes<T>(t: Table<T>, touched: Seq<usize>, now: u128, k: int)
    requires
        forall|j: int|
            0 <= j < k && touched.contains(j as usize) ==> t.handles@[j].spec_pressure(now) == 0,
    ensures
        t.pressure_sum_below(touched, now, k) == t.pressure_sum_below(
            Seq::<usize>::empty(),
            now,
            k,
        ),
    decreases k,
{
    if k > 0 {
        lemma_pressure_sum_drop_zeroes(t, touched, now, k - 1);
    }
}

impl<T> Table<T> {
    /// The cumulative pressure of the entries the touched set does not
    /// name, saturating at the integer's limit: what a tick holds against
    /// [`PRESSURE_THRESHOLD`].
    fn untouched_pressure_total(&self, touched: &Vec<usize>, now: u128) -> (r: u128)
        ensures
            ({
                let s = self.untouched_pressure(touched@, now);
                if s <= u128::MAX {
                    r == s
                } else {
                    r == u128::MAX
                }
            }),
    {
        let mut r: u128 = 0;
        let mut j: usize = 0;
        let n = self.handles.len();
        while j < n
            invariant
                j <= n,
                n == self.handles@.len(),
                ({
                    let s = self.pressure_sum_below(touched@, now, j as int);
                    if s <= u128::MAX {
                        r == s
                    } else {
                        r == u128::MAX
                    }
                }),
            decreases n - j,
        {
            proof {
                lemma_pressure_sum_nonneg(*self, touched@, now, j as int);
            }
            if !contains_id(touched, j) {
                let p = self.handles[j].pressure(now);
                r = if r > u128::MAX - p {
                    u128::MAX
                } else {
                    r + p
                };
            }
            j = j + 1;
        }
        r
    }

    /// Collects the active entries the touched set does not name whose
    /// pressure is positive at `now`, in ascending slot order: the batch
    /// that a demotion tick evicts.
    fn collect_demotable(&self, touched: &Vec<usize>, now: u128) -> (stale: Vec<usize>)
        requires
            self.wf(),
        ensures
            forall|k: int|
                0 <= k < stale@.len() ==> (#[trigger] stale@[k]) < self.handles@.len()
                    && self.handles@[stale@[k] as int].active && !touched@.contains(stale@[k])
                    && self.handles@[stale@[k] as int].spec_pressure(now) > 0,
            forall|k1: int, k2: int|
                0 <= k1 < k2 < stale@.len() ==> self.handles@[#[trigger] stale@[
                    k1] as int].partition_slot < self.handles@[#[trigger] stale@[
                    k2] as int].partition_slot,
            forall|j: int|
                0 <= j < self.handles@.len() && (#[trigger] self.handles@[j]).active && !touched@
                    .contains(j as usize) && self.handles@[j].spec_pressure(now) > 0 ==> among(
                    stale@,
                    0,
                    j as usize,
                ),
    {
        let mut stale: Vec<usize> = Vec::new();
        let mut p: usize = self.idle_count;
        proof {
            assert(self.registry@.len() == self.registry.len());
        }
        while p < self.registry.len()
            invariant
                self.idle_count <= p <= self.registry@.len(),
                self.wf(),
                forall|k: int|
                    0 <= k < stale@.len() ==> (#[trigger] stale@[k]) < self.handles@.len()
                        && self.handles@[stale@[k] as int].active && !touched@.contains(stale@[k])
                        && self.handles@[stale@[k] as int].spec_pressure(now) > 0
                        && self.idle_count + self.handles@[stale@[k] as int].partition_slot < p,
                forall|k1: int, k2: int|
                    0 <= k1 < k2 < stale@.len() ==> self.handles@[#[trigger] stale@[
                        k1] as int].partition_slot < self.handles@[#[trigger] stale@[
                        k2] as int].partition_slot,
                forall|q: int|
                    self.idle_count <= q < p && !touched@.contains(#[trigger] self.registry@[q])
                        && self.handles@[self.registry@[q] as int].spec_pressure(now) > 0 ==> among(
                        stale@,
                        0,
                        self.registry@[q],
                    ),
            decreases self.registry@.len() - p,
        {
            let jd = self.registry[p];
            proof {
                self.lemma_position_unique(p as int);
            }
            let ghost before = stale@;
            if !contains_id(touched, jd) && self.handles[jd].pressure(now) > 0 {
                stale.push(jd);
            }
            proof {
                assert forall|q: int|
                    self.idle_count <= q < p + 1 && !touched@.contains(
                        #[trigger] self.registry@[q],
                    ) && self.handles@[self.registry@[q] as int].spec_pressure(now)
                        > 0 implies among(stale@, 0, self.registry@[q]) by {
                    if q < p {
                        assert(among(before, 0, self.registry@[q]));
                        let w = choose|w: int|
                            0 <= w < before.len() && before[w] == self.registry@[q];
                        assert(stale@[w] == self.registry@[q]);
                    } else {
                        assert(stale@[stale@.len() - 1] == jd);
                    }
                }
            }
            p = p + 1;
        }
        proof {
            assert forall|j: int|
                0 <= j < self.handles@.len() && (#[trigger] self.handles@[j]).active && !touched@
                    .contains(j as usize) && self.handles@[j].spec_pressure(now) > 0 implies among(
                stale@,
                0,
                j as usize,
            ) by {
                self.lemma_id_position(j);
                assert(self.registry@[self.idle_count + self.handles@[j].partition_slot] == j);
            }
        }
        stale
    }
}

impl<T> Table<T> {
    /// Whether the touched set names any entry that is currently idle:
    /// exactly then does a tick promote something.
    pub open spec fn any_idle_touched(self, touched: Seq<usize>) -> bool {
        exists|j: int|
            0 <= j < self.handles@.len() && !(#[trigger] self.handles@[j]).active
                && touched.contains(j as usize)
    }
}

impl<T: Copy> Table<T> {
    /// One reconciliation tick.  Consumes the set of entries touched since
    /// the previous tick: refreshes their recency, promotes the idle ones
    /// (highest slot first), demotes every stale active entry in one batch
    /// once the table's cumulative pressure reaches
    /// [`PRESSURE_THRESHOLD`], and returns the writes that bring a mirror
    /// holding the previous `idle ++ active` content up to the new one —
    /// at most a write of the disturbed idle tail and a write of the whole
    /// active array, and none at all when nothing moved.
    #[verifier::rlimit(100)]
    #[verifier::spinoff_prover]
    pub fn tick(&mut self, touched: &Vec<usize>, now: u128) -> (writes: Vec<MirrorWrite<T>>)
        requires
            old(self).wf(),
            forall|i: int|
                0 <= i < touched@.len() ==> (#[trigger] touched@[i]) < old(self).handles@.len(),
        ensures
            final(self).wf(),
            final(self).handles@.len() == old(self).handles@.len(),
            final(self).buffer_content().len() == old(self).buffer_content().len(),
            forall|j: int|
                0 <= j < old(self).handles@.len() ==> final(self).handle_records(j) == old(
                    self,
                ).handle_records(j),
            forall|j: int|
                0 <= j < old(self).handles@.len() ==> {
                    &&& (#[trigger] final(self).handles@[j]).length == old(self).handles@[j].length
                    &&& final(self).handles@[j].idle_threshold == old(self).handles@[
                        j].idle_threshold
                    &&& final(self).handles@[j].last_touch == (if touched@.contains(j as usize) {
                        now
                    } else {
                        old(self).handles@[j].last_touch
                    })
                    &&& final(self).handles@[j].active == (if touched@.contains(j as usize) {
                        true
                    } else if old(self).handles@[j].active && old(self).untouched_pressure(
                        touched@,
                        now,
                    ) >= PRESSURE_THRESHOLD && old(self).handles@[j].spec_pressure(now) > 0 {
                        false
                    } else {
                        old(self).handles@[j].active
                    })
                },
            forall|j1: int, j2: int|
                #![trigger final(self).handles@[j1], final(self).handles@[j2]]
                0 <= j1 < old(self).handles@.len() && 0 <= j2 < old(self).handles@.len() && j1
                    != j2 ==> ({
                    let ho1 = old(self).handles@[j1];
                    let ho2 = old(self).handles@[j2];
                    let hn1 = final(self).handles@[j1];
                    let hn2 = final(self).handles@[j2];
                    &&& (!hn1.active && !hn2.active && !ho1.active && !ho2.active
                        && ho1.partition_slot < ho2.partition_slot ==> hn1.partition_slot
                        < hn2.partition_slot)
                    &&& (!hn1.active && !hn2.active && !ho1.active && ho2.active
                        ==> hn1.partition_slot < hn2.partition_slot)
                    &&& (!hn1.active && !hn2.active && ho1.active && ho2.active
                        && ho1.partition_slot < ho2.partition_slot ==> hn1.partition_slot
                        > hn2.partition_slot)
                    &&& (hn1.active && hn2.active && ho1.active && ho2.active
                        && ho1.partition_slot < ho2.partition_slot ==> hn1.partition_slot
                        < hn2.partition_slot)
                    &&& (hn1.active && hn2.active && ho1.active && !ho2.active
                        ==> hn1.partition_slot < hn2.partition_slot)
                    &&& (hn1.active && hn2.active && !ho1.active && !ho2.active
                        && ho1.partition_slot < ho2.partition_slot ==> hn1.partition_slot
                        > hn2.partition_slot)
                }),
            forall|k: int|
                0 <= k < writes@.len() ==> (#[trigger] writes@[k]).offset + writes@[k].data@.len()
                    <= final(self).buffer_content().len(),
            apply_writes(old(self).buffer_content(), writes@) == final(self).buffer_content(),
            writes@.len() <= 2,
            writes@.len() >= 1 ==> writes@[writes@.len() - 1].offset
                == final(self).idle_data@.len()
                && writes@[writes@.len() - 1].data@ == final(self).active_data@,
            writes@.len() == 2 ==> writes@[0].offset + writes@[0].data@.len()
                == final(self).idle_data@.len()
                && writes@[0].data@ == final(self).idle_data@.subrange(
                writes@[0].offset as int,
                final(self).idle_data@.len() as int,
            ),
            writes@.len() == 0 <==> (!old(self).any_idle_touched(touched@) && old(
                self,
            ).untouched_pressure(touched@, now) < PRESSURE_THRESHOLD),
            (touched@.len() == 0 && old(self).untouched_pressure(touched@, now)
                < PRESSURE_THRESHOLD) ==> (final(self).handles@ == old(self).handles@
                && final(self).registry@ == old(self).registry@
                && final(self).idle_data@ == old(self).idle_data@
                && final(self).active_data@ == old(self).active_data@
                && final(self).idle_count == old(self).idle_count
                && final(self).active_count == old(self).active_count),
            final(self).total_pressure(now) < PRESSURE_THRESHOLD,
    {
        let ghost o = *old(self);
        proof {
            assert(o.handles@.len() == o.handles.len());
        }

        // Step 0: stamp every touched entry with this tick's clock.
        self.refresh_touched(touched, now);
        let ghost ta = *self;

        // Step 1: promote the touched idle entries, highest slot first.
        let promos = self.collect_idle_touched(touched);
        let marker0 = self.promote_batch(&promos);
        let ghost tb = *self;

        proof {
            // Untouched entries kept their pressure through both steps.
            assert forall|j: int|
                0 <= j < o.handles@.len() && !touched@.contains(j as usize) implies o.handles@[
                j].spec_pressure(now) == tb.handles@[j].spec_pressure(now) by {
                assert(!among(promos@, 0, j as usize)) by {
                    if among(promos@, 0, j as usize) {
                        let w = choose|w: int|
                            0 <= w < promos@.len() && promos@[w] == j as usize;
                        assert(touched@.contains(promos@[w]));
                    }
                }
            }
            lemma_pressure_sum_pointwise(o, tb, touched@, now, o.handles@.len() as int);
        }

        // Step 2: once the cumulative pressure of the untouched entries
        // reaches the threshold, demote every entry with positive
        // pressure in one batch.
        let total = self.untouched_pressure_total(touched, now);
        let mut marker = marker0;
        let mut stale: Vec<usize> = Vec::new();
        if total >= PRESSURE_THRESHOLD {
            stale = self.collect_demotable(touched, now);
            proof {
                assert(stale@.len() > 0) by {
                    if stale@.len() == 0 {
                        assert forall|j: int|
                            0 <= j < tb.handles@.len() && !touched@.contains(
                                j as usize,
                            ) implies tb.handles@[j].spec_pressure(now) == 0 by {
                            if tb.handles@[j].active {
                                if tb.handles@[j].spec_pressure(now) > 0 {
                                    assert(among(stale@, 0, j as usize));
                                    let w = choose|w: int|
                                        0 <= w < stale@.len() && stale@[w] == j as usize;
                                }
                            }
                        }
                        lemma_pressure_sum_zero(tb, touched@, now, tb.handles@.len() as int);
                    }
                }
            }
            match marker {
                None => {
                    marker = Some(self.idle_data.len());
                },
                Some(_) => {},
            }
            self.demote_batch(&stale);
        }
        let ghost tc = *self;

        proof {
            // What holds of the idle prefix below the marker, whichever
            // path ran.
            match marker {
                None => {
                    assert(tc.idle_data@ == o.idle_data@.subrange(
                        0,
                        tc.idle_data@.len() as int,
                    ));
                },
                Some(m) => {
                    assert(m <= tc.idle_data@.len() && m <= o.idle_data@.len()
                        && tc.idle_data@.subrange(0, m as int) == o.idle_data@.subrange(
                        0,
                        m as int,
                    )) by {
                        if m <= tb.idle_data@.len() {
                            assert(tc.idle_data@.subrange(0, m as int) == tb.idle_data@.subrange(
                                0,
                                m as int,
                            )) by {
                                if tc.idle_data@.len() > tb.idle_data@.len() {
                                    assert(tc.idle_data@.subrange(0, tb.idle_data@.len() as int)
                                        == tb.idle_data@);
                                    assert(tc.idle_data@.subrange(0, m as int)
                                        =~= tb.idle_data@.subrange(0, m as int));
                                }
                            }
                        }
                    }
                },
            }
        }

        // Step 3: a tick that moved anything writes the disturbed idle
        // tail, if one exists, and then the whole active array.
        let moved = promos.len() > 0 || stale.len() > 0;
        let mut writes: Vec<MirrorWrite<T>> = Vec::new();
        if moved {
            let ilen = self.idle_data.len();
            match marker {
                Some(at) => {
                    if at < ilen {
                        let data = copy_range(&self.idle_data, at, ilen - at);
                        writes.push(MirrorWrite { offset: at, data });
                    }
                },
                None => {},
            }
            let alen = self.active_data.len();
            let adata = copy_range(&self.active_data, 0, alen);
            writes.push(MirrorWrite { offset: ilen, data: adata });
        }

        proof {
            let fi = tc.idle_data@;
            let fa = tc.active_data@;
            let oc = o.buffer_content();
            let fc = tc.buffer_content();
            let s = o.untouched_pressure(touched@, now);
            assert(oc.len() == fc.len());

            // The per-entry transition, composed over the three steps.
            assert forall|j: int| 0 <= j < o.handles@.len() implies {
                &&& (#[trigger] tc.handles@[j]).length == o.handles@[j].length
                &&& tc.handles@[j].idle_threshold == o.handles@[j].idle_threshold
                &&& tc.handles@[j].last_touch == (if touched@.contains(j as usize) {
                    now
                } else {
                    o.handles@[j].last_touch
                })
                &&& tc.handles@[j].active == (if touched@.contains(j as usize) {
                    true
                } else if o.handles@[j].active && s >= PRESSURE_THRESHOLD && o.handles@[
                    j].spec_pressure(now) > 0 {
                    false
                } else {
                    o.handles@[j].active
                })
            } by {
                if touched@.contains(j as usize) {
                    assert(!among(stale@, 0, j as usize)) by {
                        if among(stale@, 0, j as usize) {
                            let w = choose|w: int|
                                0 <= w < stale@.len() && stale@[w] == j as usize;
                        }
                    }
                    if !ta.handles@[j].active {
                        assert(among(promos@, 0, j as usize));
                    }
                } else {
                    assert(!among(promos@, 0, j as usize)) by {
                        if among(promos@, 0, j as usize) {
                            let w = choose|w: int|
                                0 <= w < promos@.len() && promos@[w] == j as usize;
                            assert(touched@.contains(promos@[w]));
                        }
                    }
                    if total >= PRESSURE_THRESHOLD {
                        if o.handles@[j].active && o.handles@[j].spec_pressure(now) > 0 {
                            assert(among(stale@, 0, j as usize));
                        } else {
                            assert(!among(stale@, 0, j as usize)) by {
                                if among(stale@, 0, j as usize) {
                                    let w = choose|w: int|
                                        0 <= w < stale@.len() && stale@[w] == j as usize;
                                }
                            }
                        }
                    } else {
                        assert(!among(stale@, 0, j as usize)) by {
                            if among(stale@, 0, j as usize) {
                                let w = choose|w: int|
                                    0 <= w < stale@.len() && stale@[w] == j as usize;
                            }
                        }
                    }
                }
            }

            // Ordering: survivors keep their relative order, promoted
            // entries append to the active tail in descending old idle
            // slot order, demoted entries append to the idle tail in
            // descending old active slot order.
            assert forall|j: int| 0 <= j < o.handles@.len() implies {
                &&& (#[trigger] ta.handles@[j]).partition_slot == o.handles@[j].partition_slot
                &&& ta.handles@[j].active == o.handles@[j].active
            } by {}
            let np = promos@.len() as int;
            let ns = stale@.len() as int;
            assert forall|j: int| 0 <= j < o.handles@.len() implies {
                &&& (!(#[trigger] tc.handles@[j]).active && !o.handles@[j].active ==> !among(
                    promos@,
                    0,
                    j as usize,
                ) && !tb.handles@[j].active && tc.handles@[j].partition_slot == tb.handles@[
                    j].partition_slot)
                &&& (!tc.handles@[j].active && o.handles@[j].active ==> among(
                    stale@,
                    0,
                    j as usize,
                ) && tb.handles@[j].active && tb.handles@[j].partition_slot == o.handles@[
                    j].partition_slot)
                &&& (tc.handles@[j].active ==> !among(stale@, 0, j as usize) && tb.handles@[
                    j].active)
                &&& (tc.handles@[j].active && o.handles@[j].active ==> tb.handles@[
                    j].partition_slot == o.handles@[j].partition_slot)
                &&& (tc.handles@[j].active && !o.handles@[j].active ==> among(
                    promos@,
                    0,
                    j as usize,
                ))
            } by {
                if among(stale@, 0, j as usize) {
                    let w = choose|w: int| 0 <= w < stale@.len() && stale@[w] == j as usize;
                }
                if among(promos@, 0, j as usize) {
                    let w = choose|w: int| 0 <= w < promos@.len() && promos@[w] == j as usize;
                }
            }
            assert forall|j1: int, j2: int|
                #![trigger tc.handles@[j1], tc.handles@[j2]]
                0 <= j1 < o.handles@.len() && 0 <= j2 < o.handles@.len() && j1 != j2 implies ({
                let ho1 = o.handles@[j1];
                let ho2 = o.handles@[j2];
                let hn1 = tc.handles@[j1];
                let hn2 = tc.handles@[j2];
                &&& (!hn1.active && !hn2.active && !ho1.active && !ho2.active
                    && ho1.partition_slot < ho2.partition_slot ==> hn1.partition_slot
                    < hn2.partition_slot)
                &&& (!hn1.active && !hn2.active && !ho1.active && ho2.active
                    ==> hn1.partition_slot < hn2.partition_slot)
                &&& (!hn1.active && !hn2.active && ho1.active && ho2.active && ho1.partition_slot
                    < ho2.partition_slot ==> hn1.partition_slot > hn2.partition_slot)
                &&& (hn1.active && hn2.active && ho1.active && ho2.active && ho1.partition_slot
                    < ho2.partition_slot ==> hn1.partition_slot < hn2.partition_slot)
                &&& (hn1.active && hn2.active && ho1.active && !ho2.active
                    ==> hn1.partition_slot < hn2.partition_slot)
                &&& (hn1.active && hn2.active && !ho1.active && !ho2.active && ho1.partition_slot
                    < ho2.partition_slot ==> hn1.partition_slot > hn2.partition_slot)
            }) by {
                let ho1 = o.handles@[j1];
                let ho2 = o.handles@[j2];
                let hn1 = tc.handles@[j1];
                let hn2 = tc.handles@[j2];
                if !hn1.active && !hn2.active && !ho1.active && ho2.active {
                    // Surviving idle entry against a freshly demoted one.
                    tb.lemma_id_position(j1);
                    let w = choose|w: int| 0 <= w < stale@.len() && stale@[w] == j2 as usize;
                    assert(tc.handles@[j2].partition_slot == tb.idle_count + ns - 1 - w);
                }
                if !hn1.active && !hn2.active && ho1.active && ho2.active && ho1.partition_slot
                    < ho2.partition_slot {
                    // Two freshly demoted entries: reverse registry order.
                    let w1 = choose|w: int| 0 <= w < stale@.len() && stale@[w] == j1 as usize;
                    let w2 = choose|w: int| 0 <= w < stale@.len() && stale@[w] == j2 as usize;
                    assert(w1 < w2) by {
                        if w2 < w1 {
                            assert(tb.handles@[stale@[w2] as int].partition_slot < tb.handles@[
                                stale@[w1] as int].partition_slot);
                        }
                    }
                    assert(tc.handles@[j1].partition_slot == tb.idle_count + ns - 1 - w1);
                    assert(tc.handles@[j2].partition_slot == tb.idle_count + ns - 1 - w2);
                }
                if hn1.active && hn2.active && ho1.active && !ho2.active {
                    // Surviving active entry against a freshly promoted one.
                    o.lemma_id_position(j1);
                    let w = choose|w: int| 0 <= w < promos@.len() && promos@[w] == j2 as usize;
                    assert(tb.handles@[j2].partition_slot == ta.active_count + np - 1 - w);
                    assert(tb.handles@[j1].partition_slot < tb.handles@[j2].partition_slot);
                }
                if hn1.active && hn2.active && !ho1.active && !ho2.active && ho1.partition_slot
                    < ho2.partition_slot {
                    // Two freshly promoted entries: reverse idle slot order.
                    let w1 = choose|w: int| 0 <= w < promos@.len() && promos@[w] == j1 as usize;
                    let w2 = choose|w: int| 0 <= w < promos@.len() && promos@[w] == j2 as usize;
                    assert(w1 < w2) by {
                        if w2 < w1 {
                            assert(ta.handles@[promos@[w2] as int].partition_slot < ta.handles@[
                                promos@[w1] as int].partition_slot);
                        }
                    }
                    assert(tb.handles@[j1].partition_slot == ta.active_count + np - 1 - w1);
                    assert(tb.handles@[j2].partition_slot == ta.active_count + np - 1 - w2);
                    assert(tb.handles@[j1].partition_slot > tb.handles@[j2].partition_slot);
                }
            }

            // Mirror equivalence: the returned writes turn the old buffer
            // content into the new one.
            reveal_with_fuel(apply_writes, 4);
            if writes@.len() == 0 {
                assert(apply_writes(oc, writes@) == oc);
                assert(promos@.len() == 0 && stale@.len() == 0);
                assert(fc =~= oc);
            } else {
                assert(fi.len() <= oc.len());
                assert(fi.len() + fa.len() == oc.len());
                if writes@.len() == 1 {
                    let w = writes@[0];
                    assert(w.offset == fi.len() && w.data@ == fa);
                    assert(fi =~= oc.subrange(0, fi.len() as int)) by {
                        match marker {
                            None => {},
                            Some(m) => {
                                assert(m == fi.len());
                                assert(fi =~= o.idle_data@.subrange(0, m as int));
                            },
                        }
                    }
                    assert(writes@.skip(1) =~= Seq::<MirrorWrite<T>>::empty());
                    assert(apply_writes(oc, writes@) == write_seq(
                        oc,
                        fi.len() as int,
                        fa,
                    ));
                    assert(write_seq(oc, fi.len() as int, fa) =~= fc);
                } else {
                    let w0 = writes@[0];
                    let w1 = writes@[1];
                    let m = w0.offset as int;
                    assert(w1.offset == fi.len() && w1.data@ == fa);
                    assert(m < fi.len() && w0.data@ == fi.subrange(m, fi.len() as int));
                    assert(fi.subrange(0, m) == o.idle_data@.subrange(0, m));
                    let m1 = write_seq(oc, m, w0.data@);
                    assert(m1.len() == oc.len());
                    assert(writes@.skip(1) =~= seq![w1]);
                    assert(writes@.skip(1).skip(1) =~= Seq::<MirrorWrite<T>>::empty());
                    assert(apply_writes(oc, writes@) == write_seq(m1, fi.len() as int, fa));
                    assert(write_seq(m1, fi.len() as int, fa) =~= fc) by {
                        assert forall|i: int| 0 <= i < m implies m1[i] == fi[i] by {
                            assert(m1[i] == oc[i]);
                            assert(oc[i] == o.idle_data@[i]);
                            assert(fi.subrange(0, m)[i] == fi[i]);
                        }
                        assert forall|i: int| m <= i < fi.len() implies m1[i] == fi[i] by {
                            assert(m1[i] == w0.data@[i - m]);
                        }
                    }
                }
            }

            // A tick writes nothing exactly when nothing moved.
            if promos@.len() == 0 {
                assert(!o.any_idle_touched(touched@)) by {
                    if o.any_idle_touched(touched@) {
                        let j = choose|j: int|
                            0 <= j < o.handles@.len() && !(#[trigger] o.handles@[j]).active
                                && touched@.contains(j as usize);
                        assert(!ta.handles@[j].active);
                    }
                }
            } else {
                assert(o.any_idle_touched(touched@)) by {
                    let k0 = promos@[0];
                    assert(!ta.handles@[k0 as int].active && touched@.contains(k0));
                }
            }

            // After the tick the whole table's pressure is below the
            // threshold: a second tick without new touches moves nothing.
            assert(tc.total_pressure(now) < PRESSURE_THRESHOLD) by {
                if total >= PRESSURE_THRESHOLD {
                    assert forall|j: int| 0 <= j < tc.handles@.len() implies tc.handles@[
                        j].spec_pressure(now) == 0 by {
                        if touched@.contains(j as usize) {
                        } else {
                            if o.handles@[j].active && o.handles@[j].spec_pressure(now) > 0 {
                                assert(!tc.handles@[j].active);
                            }
                        }
                    }
                    lemma_pressure_sum_zero(tc, Seq::<usize>::empty(), now, tc.handles@.len() as int);
                } else {
                    assert forall|j: int|
                        0 <= j < tc.handles@.len() && touched@.contains(
                            j as usize,
                        ) implies tc.handles@[j].spec_pressure(now) == 0 by {}
                    lemma_pressure_sum_drop_zeroes(tc, touched@, now, tc.handles@.len() as int);
                    lemma_pressure_sum_pointwise(o, tc, touched@, now, o.handles@.len() as int);
                }
            }

            // An empty tick below the threshold leaves the table alone.
            if touched@.len() == 0 && s < PRESSURE_THRESHOLD {
                assert(promos@.len() == 0) by {
                    if promos@.len() > 0 {
                        assert(touched@.contains(promos@[0]));
                    }
                }
                assert forall|j: int| 0 <= j < o.handles@.len() implies ta.handles@[j]
                    == o.handles@[j] by {}
                assert(ta.handles@ =~= o.handles@);
                assert(tc.handles@ == o.handles@ && tc.registry@ == o.registry@ && tc.idle_data@
                    == o.idle_data@ && tc.active_data@ == o.active_data@);
            }
        }
        writes
    }
}

} // verus!
