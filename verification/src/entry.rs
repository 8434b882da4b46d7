//! The versioned record held for one key of the store.

use vstd::prelude::*;

use crate::clock::now_stamp;

verus! {

/// The mathematical value of an [`Entry`]: its fields with unbounded
/// integers and the stored string as a sequence of characters.
pub ghost struct EntryV {
    pub time: int,
    pub version: int,
    pub value: Seq<char>,
}

/// An `Entry` combines a string value with the metadata the store keeps for
/// it: the Unix timestamp of the last write to it and a version counter that
/// starts at 1 and grows by exactly 1 on every value-changing update.
///
/// Entries are immutable: every transition produces a new `Entry` instead of
/// editing fields, so "the value changes exactly when the version grows" can
/// be read off the two constructors below.
#[derive(Clone, Debug)]
pub struct Entry {
    /// The timestamp of the last write on the entry, whether that write is
    /// creation (version = 1) or modification (version > 1).
    pub time: i64,

    /// Incremented on each value-changing write to the entry.
    pub version: i64,

    /// The current value of the entry.
    pub value: String,
}

impl View for Entry {
    type V = EntryV;

    open spec fn view(&self) -> EntryV {
        EntryV { time: self.time as int, version: self.version as int, value: self.value@ }
    }
}

impl Entry {
    /// Converts the value to a `String` and initialises a new entry with the
    /// current time and the starting version.
    ///
    /// An entry never holds an empty value. This constructor returns a bare
    /// `Entry` and so demands a non-empty value outright; the store's write
    /// operations make that check and reject an empty value with
    /// `InvalidValue` before any entry is created.
    pub fn new(value: &str) -> (r: Entry)
        requires
            value@.len() > 0,
        ensures
            r.time > 0,
            r@.version == 1,
            r@.value == value@,
    {
        Entry::from_string(value.to_owned())
    }

    /// Initialises a new entry with the current time and the starting
    /// version, taking ownership of the string. As with [`Entry::new`], the
    /// value must be non-empty; the store rejects an empty one with
    /// `InvalidValue` before reaching this constructor.
    pub fn from_string(s: String) -> (r: Entry)
        requires
            s@.len() > 0,
        ensures
            r.time > 0,
            r@.version == 1,
            r@.value == s@,
    {
        Entry { time: now_stamp(), version: 1, value: s }
    }

    /// Returns a new entry carrying the new value. If the new value equals
    /// the old one this is a true no-op: the copy keeps the old timestamp and
    /// version. Otherwise the version grows by exactly 1 and the timestamp
    /// moves forward, never back.
    pub fn update(old: &Entry, nval: &str) -> (r: Entry)
        requires
            nval@.len() > 0,
            nval@ != old.value@ ==> old.version < i64::MAX,
        ensures
            nval@ == old.value@ ==> r@ == old@,
            nval@ != old.value@ ==> r@.version == old@.version + 1 && r@.value == nval@,
            r.time >= old.time,
            nval@ != old.value@ ==> r.time > 0,
    {
        Entry::update_from_string(old, nval.to_owned())
    }

    /// Works like [`Entry::update`], taking ownership of the string.
    pub fn update_from_string(old: &Entry, s: String) -> (r: Entry)
        requires
            s@.len() > 0,
            s@ != old.value@ ==> old.version < i64::MAX,
        ensures
            s@ == old.value@ ==> r@ == old@,
            s@ != old.value@ ==> r@.version == old@.version + 1 && r@.value == s@,
            r.time >= old.time,
            s@ != old.value@ ==> r.time > 0,
    {
        if old.value == s {
            Entry { time: old.time, version: old.version, value: old.value.clone() }
        } else {
            let now = now_stamp();
            let time = if now >= old.time {
                now
            } else {
                old.time
            };
            Entry { time, version: old.version + 1, value: s }
        }
    }
}

} // verus!
