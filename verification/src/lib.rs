//! An embedded, read-mostly event-log store.
//!
//! A [`Constructor`] accumulates (uuid, timestamp, field-values) triples in
//! memory, building a per-field lexicon of distinct values and a dense trail
//! index as it goes. Sealing it with [`Constructor::finalize`] produces an
//! immutable [`Db`], whose trails hold their events in non-decreasing
//! timestamp order. A [`Cursor`] decodes one trail at a time, optionally
//! through an [`EventFilter`] (a conjunction of OR-clauses plus an optional
//! half-open time window), and a [`MultiCursor`] merges several positioned
//! cursors by ascending timestamp.
//!
//! Every operation carries a contract: the filter algebra, the item codec,
//! the trail index and the sort performed at seal time are specified over
//! mathematical models of the store and proved against them.

use vstd::prelude::*;

pub mod builder;
pub mod cursor;
pub mod errors;
pub mod event;
pub mod filter;
pub mod sort;
pub mod item;
pub mod log;
pub mod multi;

pub use builder::Constructor;
pub use cursor::{Cursor, DbIter, Trail};
pub use errors::Error;
pub use log::Db;
pub use event::Event;
pub use filter::EventFilter;
pub use multi::{MultiCursor, MultiEvent};
pub use item::Item;

verus! {

/// Event timestamps; what they denote (e.g. UNIX time) is up to the caller.
pub type Timestamp = u64;

/// The type returned by `Db::version`.
pub type Version = u64;

/// Dense, 0-based identifier of one trail inside one `Db`.
pub type TrailId = u64;

/// External 128-bit entity identifier; opaque, never interpreted.
pub type Uuid = [u8; 16];

/// A lexicon value id; 0 is reserved and means "field has no value".
pub type Value = u64;

/// A schema column position; data fields are numbered from 1, position 0 is
/// the reserved time field.
pub type Field = u32;

/// Most data fields a schema may declare (the reserved time field not counted).
pub const MAX_NUM_FIELDS: usize = 16382;

/// Longest accepted field name, in bytes of its UTF-8 form (here: chars).
pub const MAX_FIELD_NAME_LEN: usize = 512;

/// Longest accepted field value, in chars.
pub const MAX_VALUE_LEN: usize = 4194304;

/// Largest accepted event timestamp.
pub const MAX_TIMESTAMP: u64 = 0x1FFFFFFFFFFFFFFF;

/// Most distinct values one field's lexicon may hold (ids must fit in 32 bits).
pub const MAX_LEXICON_SIZE: usize = 0xFFFFFFFE;

/// Format version reported by `Db::version`.
pub const DB_FORMAT_VERSION: u64 = 1;

} // verus!
