//! A hot/cold data-partition manager for tables of fixed-layout records.
//!
//! A [`table::Table`] keeps every record of one element type packed into two
//! dense arrays: an *idle* partition for rarely-touched entries and an
//! *active* partition for frequently-updated ones.  Each logical entry is
//! tracked by a [`handle::Handle`] that records its partition, its ordinal
//! slot among the entries of that partition, and the offset of its records
//! in the partition's array.  The per-tick synchronizer in [`sync`] consumes
//! the set of entries touched since the last tick, promotes touched idle
//! entries, demotes stale active entries in batches, compacts both arrays,
//! and emits the minimal set of writes that brings an external mirror buffer
//! back to the concatenation `idle ++ active`.
//!
//! The sprite-sheet frame selector in [`sprite`] and the small per-frame
//! helpers in [`frame`] cover the integer-valued decisions of the
//! surrounding render loop.

pub mod frame;
pub mod handle;
pub mod sprite;
pub mod sync;
pub mod table;
