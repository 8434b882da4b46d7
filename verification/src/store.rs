//! The backing key-value store: a vector of `String` keys paired with
//! [`Entry`] records, read as a finite map, together with the metrics the
//! store keeps about itself.

use vstd::prelude::*;

use crate::clock::now_stamp;
use crate::entry::{Entry, EntryV};
use crate::kvmap::{
    find_key, has_key, lemma_pairs_map_domain, lemma_pairs_map_index, lemma_pairs_map_len,
    lemma_pairs_map_remove, pairs_map, str_pairs, unique_keys,
};
use crate::snapshot::{
    enc_entries, enc_entry, enc_num, enc_str, entry_wf, lemma_decode_wf,
    lemma_snapshot_round_trip, magic, parse_num, parse_str, push_num, push_str_tok, snap_bounded,
    snap_wf, sp_parse_entries, spec_decode, spec_encode, string_from_chars, SnapV,
};

verus! {

/// The outcome tag of a write operation. Outcomes are not errors: each one
/// reports what an otherwise-successful operation did.
#[derive(Clone, Copy, Debug, PartialEq, Eq, Structural)]
pub enum WriteResult {
    /// Returned when inserting an entry under a key that already exists; the
    /// insert was rejected.
    AlreadyExists,
    /// Returned when inserting an entry under a key that did not exist yet.
    Inserted,
    /// Returned when writing to or deleting an already-existing key.
    Updated,
    /// Returned when deleting a key that does not exist.
    DoesNotExist,
}

/// A write was rejected before any state change.
#[derive(Clone, Copy, Debug, PartialEq, Eq, Structural)]
pub enum StoreError {
    /// The write carried an empty value, which the store does not hold.
    InvalidValue,
}

/// A snapshot text could not be read back; no store is produced.
#[derive(Clone, Copy, Debug, PartialEq, Eq, Structural)]
pub enum DecodeError {
    /// The text is not the canonical snapshot of any well-formed store.
    Malformed,
}

impl WriteResult {
    /// A human-readable reading of the outcome tag.
    pub fn to_string(&self) -> (r: String)
        ensures
            *self == WriteResult::AlreadyExists ==> r@ == "key already exists"@,
            *self == WriteResult::Inserted ==> r@ == "new entry inserted"@,
            *self == WriteResult::Updated ==> r@ == "entry was updated"@,
            *self == WriteResult::DoesNotExist ==> r@ == "key doesn't exist"@,
    {
        match *self {
            WriteResult::AlreadyExists => "key already exists".to_owned(),
            WriteResult::Inserted => "new entry inserted".to_owned(),
            WriteResult::Updated => "entry was updated".to_owned(),
            WriteResult::DoesNotExist => "key doesn't exist".to_owned(),
        }
    }
}

/// Information the store keeps about itself.
#[derive(Clone, Copy, Debug)]
pub struct Metrics {
    /// The timestamp of the last successful write (insert, update or
    /// delete); 0 while the store has never been written to.
    pub last_update: i64,

    /// The timestamp of the last time the store was persisted; 0 while it
    /// never was.
    pub last_write: i64,

    /// The current number of keys in the store.
    pub size: usize,
}

impl Metrics {
    /// An all-zero `Metrics` record, the state of a store never written to.
    pub fn new() -> (r: Metrics)
        ensures
            r.last_update == 0,
            r.last_write == 0,
            r.size == 0,
    {
        Metrics { last_update: 0, last_write: 0, size: 0 }
    }
}

/// The mathematical value of a [`Store`]: its entries as a finite map from
/// key to entry value, beside the metrics and the snapshot path.
pub ghost struct StoreV {
    pub path: Seq<char>,
    pub last_update: int,
    pub last_write: int,
    pub size: int,
    pub entries: Map<Seq<char>, EntryV>,
}

/// A simple key-value store that can persist itself to a snapshot.
#[derive(Clone, Debug)]
pub struct Store {
    /// The location of the persisted snapshot; an empty path disables
    /// persistence.
    pub path: String,

    /// The store's metrics record.
    pub metrics: Metrics,

    /// The key-entry pairs, keys pairwise distinct.
    pub values: Vec<(String, Entry)>,
}

impl View for Store {
    type V = StoreV;

    open spec fn view(&self) -> StoreV {
        StoreV {
            path: self.path@,
            last_update: self.metrics.last_update as int,
            last_write: self.metrics.last_write as int,
            size: self.metrics.size as int,
            entries: pairs_map(str_pairs(self.values@)),
        }
    }
}

/// Returns an empty `Store` that will persist to `store_path`.
pub fn new(store_path: String) -> (r: Store)
    ensures
        r.wf(),
        r@.path == store_path@,
        r@.last_update == 0,
        r@.last_write == 0,
        r@.size == 0,
        r@.entries == Map::<Seq<char>, EntryV>::empty(),
{
    let r = Store { path: store_path, metrics: Metrics::new(), values: Vec::new() };
    proof {
        assert(str_pairs(r.values@) =~= Seq::<(Seq<char>, EntryV)>::empty());
    }
    r
}

/// The timestamp a write records: the current clock reading, never moving
/// behind what the store has already seen.
pub open spec fn write_stamp(last_update: int, now: int) -> int {
    if now >= last_update {
        now
    } else {
        last_update
    }
}

/// The outcome `insert` reports, determined by the store and the arguments
/// alone.
pub open spec fn insert_outcome(s: StoreV, k: Seq<char>, v: Seq<char>) -> Result<
    WriteResult,
    StoreError,
> {
    if s.entries.contains_key(k) {
        Ok(WriteResult::AlreadyExists)
    } else if v.len() == 0 {
        Err(StoreError::InvalidValue)
    } else {
        Ok(WriteResult::Inserted)
    }
}

/// The store `insert` leaves behind, when the clock read `now`.
pub open spec fn insert_state(s: StoreV, k: Seq<char>, v: Seq<char>, now: int) -> StoreV {
    if insert_outcome(s, k, v) == Ok::<WriteResult, StoreError>(WriteResult::Inserted) {
        let ts = write_stamp(s.last_update, now);
        StoreV {
            path: s.path,
            last_update: ts,
            last_write: s.last_write,
            size: s.size + 1,
            entries: s.entries.insert(k, EntryV { time: ts, version: 1, value: v }),
        }
    } else {
        s
    }
}

/// The outcome `update` reports.
pub open spec fn update_outcome(s: StoreV, k: Seq<char>, v: Seq<char>) -> Result<
    WriteResult,
    StoreError,
> {
    if v.len() == 0 {
        Err(StoreError::InvalidValue)
    } else if s.entries.contains_key(k) {
        Ok(WriteResult::Updated)
    } else {
        Ok(WriteResult::Inserted)
    }
}

/// The store `update` leaves behind, when the clock read `now`. An update
/// that carries the value the key already holds keeps the entry unchanged --
/// same version, same timestamp -- while the metrics are still refreshed.
pub open spec fn update_state(s: StoreV, k: Seq<char>, v: Seq<char>, now: int) -> StoreV {
    if v.len() == 0 {
        s
    } else {
        let ts = write_stamp(s.last_update, now);
        if !s.entries.contains_key(k) {
            StoreV {
                path: s.path,
                last_update: ts,
                last_write: s.last_write,
                size: s.size + 1,
                entries: s.entries.insert(k, EntryV { time: ts, version: 1, value: v }),
            }
        } else if s.entries[k].value == v {
            StoreV { path: s.path, last_update: ts, last_write: s.last_write, size: s.size, entries: s.entries }
        } else {
            let old_e = s.entries[k];
            StoreV {
                path: s.path,
                last_update: ts,
                last_write: s.last_write,
                size: s.size,
                entries: s.entries.insert(
                    k,
                    EntryV { time: ts, version: old_e.version + 1, value: v },
                ),
            }
        }
    }
}

/// The outcome `delete` reports.
pub open spec fn delete_outcome(s: StoreV, k: Seq<char>) -> WriteResult {
    if s.entries.contains_key(k) {
        WriteResult::Updated
    } else {
        WriteResult::DoesNotExist
    }
}

/// The store `delete` leaves behind, when the clock read `now`.
pub open spec fn delete_state(s: StoreV, k: Seq<char>, now: int) -> StoreV {
    if s.entries.contains_key(k) {
        StoreV {
            path: s.path,
            last_update: write_stamp(s.last_update, now),
            last_write: s.last_write,
            size: s.size - 1,
            entries: s.entries.remove(k),
        }
    } else {
        s
    }
}

impl Store {
    /// The snapshot reading of the store: the same scalars, with the entries
    /// as the ordered pair sequence rather than the map.
    pub open spec fn snap(self) -> SnapV {
        SnapV {
            path: self.path@,
            last_update: self.metrics.last_update as int,
            last_write: self.metrics.last_write as int,
            size: self.metrics.size as int,
            pairs: str_pairs(self.values@),
        }
    }

    /// Well-formedness: keys distinct and non-empty, values non-empty,
    /// versions at least 1, timestamps between 1 and `last_update`, and the
    /// metrics size equal to the number of live keys.
    pub open spec fn wf(self) -> bool {
        snap_wf(self.snap())
    }

    /// The number of entries in the key-value store.
    pub fn len(&self) -> (r: usize)
        requires
            self.wf(),
        ensures
            r as int == self@.size,
            r as int == self@.entries.len(),
    {
        proof {
            lemma_pairs_map_len(str_pairs(self.values@));
        }
        self.values.len()
    }

    /// Writes a new entry. The expectation is that the key is fresh: if it
    /// already exists the insert is rejected with `AlreadyExists` and the
    /// store is left untouched; an empty value for a fresh key is rejected
    /// with `InvalidValue` before any mutation.
    pub fn insert(&mut self, k: String, v: String) -> (r: Result<WriteResult, StoreError>)
        requires
            old(self).wf(),
            k@.len() > 0,
        ensures
            final(self).wf(),
            r == insert_outcome(old(self)@, k@, v@),
            exists|now: int|
                0 < now <= i64::MAX && final(self)@ == insert_state(old(self)@, k@, v@, now),
            final(self)@.last_update >= old(self)@.last_update,
            insert_outcome(old(self)@, k@, v@) != Ok::<WriteResult, StoreError>(
                WriteResult::Inserted,
            ) ==> *final(self) == *old(self),
    {
        let ghost pre = self@;
        proof {
            lemma_pairs_map_domain(str_pairs(self.values@));
        }
        match find_key(&self.values, &k) {
            Some(i) => {
                proof {
                    assert(str_pairs(self.values@)[i as int].0 == k@);
                    assert(has_key(str_pairs(self.values@), k@));
                    assert(exists|now: int|
                        0 < now <= i64::MAX && self@ == insert_state(pre, k@, v@, now)) by {
                        assert(self@ == insert_state(pre, k@, v@, 1));
                    }
                }
                Ok(WriteResult::AlreadyExists)
            },
            None => {
                proof {
                    assert(forall|j: int|
                        0 <= j < str_pairs(self.values@).len() ==> #[trigger] str_pairs(
                            self.values@,
                        )[j].0 != k@);
                    assert(!has_key(str_pairs(self.values@), k@));
                }
                if v.as_str().is_empty() {
                    proof {
                        assert(exists|now: int|
                            0 < now <= i64::MAX && self@ == insert_state(pre, k@, v@, now)) by {
                            assert(self@ == insert_state(pre, k@, v@, 1));
                        }
                    }
                    Err(StoreError::InvalidValue)
                } else {
                    let now = now_stamp();
                    let ts = self.put_new(k, v, now);
                    proof {
                        assert(self@ == insert_state(pre, k@, v@, now as int));
                        assert(exists|n: int|
                            0 < n <= i64::MAX && self@ == insert_state(pre, k@, v@, n)) by {
                            assert(self@ == insert_state(pre, k@, v@, now as int));
                        }
                    }
                    Ok(WriteResult::Inserted)
                }
            },
        }
    }

    /// Adds a fresh key with a new version-1 entry and refreshes the
    /// metrics, all stamped with the clock reading `now`.
    fn put_new(&mut self, k: String, v: String, now: i64) -> (ts: i64)
        requires
            old(self).wf(),
            k@.len() > 0,
            v@.len() > 0,
            now > 0,
            !old(self)@.entries.contains_key(k@),
        ensures
            final(self).wf(),
            ts == write_stamp(old(self)@.last_update, now as int),
            final(self)@ == insert_state(old(self)@, k@, v@, now as int),
            insert_outcome(old(self)@, k@, v@) == Ok::<WriteResult, StoreError>(
                WriteResult::Inserted,
            ),
    {
        let ghost pre = self@;
        let ghost pre_pairs = str_pairs(self.values@);
        proof {
            lemma_pairs_map_domain(pre_pairs);
            assert(!has_key(pre_pairs, k@));
        }
        let ts = if now >= self.metrics.last_update {
            now
        } else {
            self.metrics.last_update
        };
        let ghost kview = k@;
        let ghost vview = v@;
        let e = Entry { time: ts, version: 1, value: v };
        self.values.push((k, e));
        self.metrics.last_update = ts;
        self.metrics.size = self.values.len();
        proof {
            let ps = str_pairs(self.values@);
            assert(ps =~= pre_pairs.push((kview, EntryV { time: ts as int, version: 1, value: vview })));
            assert(ps.drop_last() =~= pre_pairs);
            assert(unique_keys(ps)) by {
                assert(forall|j: int| 0 <= j < pre_pairs.len() ==> ps[j] == pre_pairs[j]);
                assert(forall|j: int|
                    0 <= j < pre_pairs.len() ==> #[trigger] pre_pairs[j].0 != kview);
            }
            assert(self@.entries =~= pre.entries.insert(
                kview,
                EntryV { time: ts as int, version: 1, value: vview },
            ));
            assert(self@ == insert_state(pre, kview, vview, now as int));
            assert(self.wf());
        }
        ts
    }

    /// Changes the value for the key to `v`, creating the entry if the key
    /// is absent (`Inserted`) and replacing it otherwise (`Updated`).
    /// Replacing an entry with the value it already holds keeps the entry --
    /// timestamp and version included -- though `Updated` is still returned
    /// and the metrics are still refreshed. An empty value is rejected with
    /// `InvalidValue` before any mutation.
    pub fn update(&mut self, k: String, v: String) -> (r: Result<WriteResult, StoreError>)
        requires
            old(self).wf(),
            k@.len() > 0,
            v@.len() > 0 && old(self)@.entries.contains_key(k@) && old(self)@.entries[k@].value
                != v@ ==> old(self)@.entries[k@].version < i64::MAX,
        ensures
            final(self).wf(),
            r == update_outcome(old(self)@, k@, v@),
            exists|now: int|
                0 < now <= i64::MAX && final(self)@ == update_state(old(self)@, k@, v@, now),
            final(self)@.last_update >= old(self)@.last_update,
            v@.len() == 0 ==> *final(self) == *old(self),
    {
        let ghost pre = self@;
        let ghost pre_pairs = str_pairs(self.values@);
        proof {
            lemma_pairs_map_domain(pre_pairs);
        }
        if v.as_str().is_empty() {
            proof {
                assert(exists|now: int|
                    0 < now <= i64::MAX && self@ == update_state(pre, k@, v@, now)) by {
                    assert(self@ == update_state(pre, k@, v@, 1));
                }
            }
            return Err(StoreError::InvalidValue);
        }
        match find_key(&self.values, &k) {
            None => {
                proof {
                    assert(forall|j: int|
                        0 <= j < pre_pairs.len() ==> #[trigger] pre_pairs[j].0 != k@);
                    assert(!has_key(pre_pairs, k@));
                }
                let now = now_stamp();
                self.put_new(k, v, now);
                proof {
                    assert(self@ == update_state(pre, k@, v@, now as int));
                    assert(exists|n: int|
                        0 < n <= i64::MAX && self@ == update_state(pre, k@, v@, n)) by {
                        assert(self@ == update_state(pre, k@, v@, now as int));
                    }
                }
                Ok(WriteResult::Inserted)
            },
            Some(i) => {
                proof {
                    assert(str_pairs(self.values@)[i as int].0 == k@);
                    assert(has_key(pre_pairs, k@));
                    lemma_pairs_map_index(pre_pairs, i as int);
                    assert(pre.entries[k@] == self.values@[i as int].1@);
                }
                let now = now_stamp();
                let ts = if now >= self.metrics.last_update {
                    now
                } else {
                    self.metrics.last_update
                };
                let ghost kview = k@;
                let ghost vview = v@;
                let same = self.values[i].1.value == v;
                if !same {
                    let old_version = self.values[i].1.version;
                    let e = Entry { time: ts, version: old_version + 1, value: v };
                    let _ = self.values.remove(i);
                    proof {
                        assert(str_pairs(self.values@) =~= pre_pairs.remove(i as int));
                        lemma_pairs_map_remove(pre_pairs, i as int);
                    }
                    let ghost mid_pairs = str_pairs(self.values@);
                    proof {
                        lemma_pairs_map_domain(mid_pairs);
                        assert(!pairs_map(mid_pairs).contains_key(kview));
                        assert(!has_key(mid_pairs, kview));
                        assert(forall|j: int|
                            0 <= j < mid_pairs.len() ==> #[trigger] mid_pairs[j].0 != kview);
                    }
                    self.values.push((k, e));
                    proof {
                        let ps = str_pairs(self.values@);
                        assert(ps =~= mid_pairs.push(
                            (kview, EntryV {
                                time: ts as int,
                                version: old_version as int + 1,
                                value: vview,
                            }),
                        ));
                        assert(ps.drop_last() =~= mid_pairs);
                        assert(unique_keys(ps)) by {
                            assert(forall|j: int|
                                0 <= j < mid_pairs.len() ==> ps[j] == mid_pairs[j]);
                        }
                    }
                }
                self.metrics.last_update = ts;
                self.metrics.size = self.values.len();
                proof {
                    if same {
                        assert(str_pairs(self.values@) =~= pre_pairs);
                        assert(self@.entries =~= update_state(pre, kview, vview, now as int).entries);
                    } else {
                        assert(self@.entries =~= pre.entries.remove(kview).insert(
                            kview,
                            EntryV {
                                time: ts as int,
                                version: pre.entries[kview].version + 1,
                                value: vview,
                            },
                        ));
                        assert(self@.entries =~= update_state(pre, kview, vview, now as int).entries);
                        lemma_pairs_map_len(pre_pairs);
                        lemma_pairs_map_len(str_pairs(self.values@));
                        assert(self@.entries.len() == pre.entries.len());
                    }
                    assert(self@ == update_state(pre, kview, vview, now as int));
                    assert(exists|n: int|
                        0 < n <= i64::MAX && self@ == update_state(pre, kview, vview, n)) by {
                        assert(self@ == update_state(pre, kview, vview, now as int));
                    }
                    assert(self.wf());
                }
                Ok(WriteResult::Updated)
            },
        }
    }

    /// Returns the stored value for the key, if the key is present. A pure
    /// read: nothing about the store changes, metrics included.
    pub fn get(&self, k: String) -> (r: Option<String>)
        requires
            self.wf(),
        ensures
            match r {
                Some(v) => self@.entries.contains_key(k@) && v@ == self@.entries[k@].value,
                None => !self@.entries.contains_key(k@),
            },
    {
        proof {
            lemma_pairs_map_domain(str_pairs(self.values@));
        }
        match find_key(&self.values, &k) {
            Some(i) => {
                proof {
                    assert(str_pairs(self.values@)[i as int].0 == k@);
                    assert(has_key(str_pairs(self.values@), k@));
                    lemma_pairs_map_index(str_pairs(self.values@), i as int);
                }
                Some(self.values[i].1.value.clone())
            },
            None => {
                proof {
                    assert(forall|j: int|
                        0 <= j < str_pairs(self.values@).len() ==> #[trigger] str_pairs(
                            self.values@,
                        )[j].0 != k@);
                    assert(!has_key(str_pairs(self.values@), k@));
                }
                None
            },
        }
    }

    /// Removes the key from the store, reporting `Updated` when it was
    /// present and `DoesNotExist` -- with nothing changed -- when it was not.
    pub fn delete(&mut self, k: String) -> (r: WriteResult)
        requires
            old(self).wf(),
        ensures
            final(self).wf(),
            r == delete_outcome(old(self)@, k@),
            exists|now: int|
                0 < now <= i64::MAX && final(self)@ == delete_state(old(self)@, k@, now),
            final(self)@.last_update >= old(self)@.last_update,
            !old(self)@.entries.contains_key(k@) ==> *final(self) == *old(self),
    {
        let ghost pre = self@;
        let ghost pre_pairs = str_pairs(self.values@);
        proof {
            lemma_pairs_map_domain(pre_pairs);
        }
        match find_key(&self.values, &k) {
            Some(i) => {
                proof {
                    assert(str_pairs(self.values@)[i as int].0 == k@);
                    assert(has_key(pre_pairs, k@));
                }
                let now = now_stamp();
                let ts = if now >= self.metrics.last_update {
                    now
                } else {
                    self.metrics.last_update
                };
                let _ = self.values.remove(i);
                self.metrics.last_update = ts;
                self.metrics.size = self.values.len();
                proof {
                    assert(str_pairs(self.values@) =~= pre_pairs.remove(i as int));
                    lemma_pairs_map_remove(pre_pairs, i as int);
                    assert(self@.entries =~= pre.entries.remove(k@));
                    assert(self@ == delete_state(pre, k@, now as int));
                    assert(exists|n: int|
                        0 < n <= i64::MAX && self@ == delete_state(pre, k@, n)) by {
                        assert(self@ == delete_state(pre, k@, now as int));
                    }
                    assert(self.wf());
                }
                WriteResult::Updated
            },
            None => {
                proof {
                    assert(forall|j: int|
                        0 <= j < pre_pairs.len() ==> #[trigger] pre_pairs[j].0 != k@);
                    assert(!has_key(pre_pairs, k@));
                    assert(exists|n: int|
                        0 < n <= i64::MAX && self@ == delete_state(pre, k@, n)) by {
                        assert(self@ == delete_state(pre, k@, 1));
                    }
                }
                WriteResult::DoesNotExist
            },
        }
    }

    /// The snapshot text of the store, exactly [`spec_encode`] of its
    /// snapshot value.
    fn encode_chars(&self) -> (r: Vec<char>)
        requires
            self.wf(),
        ensures
            r@ == spec_encode(self.snap()),
            snap_bounded(self.snap()),
    {
        let ghost snap = self.snap();
        let mut out: Vec<char> = Vec::new();
        out.push('s');
        out.push('k');
        out.push('v');
        out.push('s');
        out.push(';');
        proof {
            assert(out@ =~= magic());
        }
        push_num(&mut out, self.metrics.last_update as u64);
        push_num(&mut out, self.metrics.last_write as u64);
        push_num(&mut out, self.metrics.size as u64);
        push_str_tok(&mut out, &self.path);
        push_num(&mut out, self.values.len() as u64);
        let ghost head = out@;
        proof {
            assert((self.metrics.last_update as u64) as nat == snap.last_update as nat);
            assert((self.metrics.last_write as u64) as nat == snap.last_write as nat);
            assert((self.metrics.size as u64) as nat == snap.size as nat);
            assert((self.values.len() as u64) as nat == snap.pairs.len());
            assert(head =~= magic() + enc_num(snap.last_update as nat) + enc_num(
                snap.last_write as nat,
            ) + enc_num(snap.size as nat) + enc_str(snap.path) + enc_num(snap.pairs.len()));
        }
        let mut i: usize = 0;
        while i < self.values.len()
            invariant
                0 <= i <= self.values@.len(),
                self.wf(),
                snap == self.snap(),
                snap.path.len() <= u64::MAX,
                head == magic() + enc_num(snap.last_update as nat) + enc_num(
                    snap.last_write as nat,
                ) + enc_num(snap.size as nat) + enc_str(snap.path) + enc_num(snap.pairs.len()),
                out@ == head + enc_entries(str_pairs(self.values@).take(i as int)),
                forall|q: int|
                    0 <= q < i ==> (#[trigger] str_pairs(self.values@)[q]).0.len() <= u64::MAX
                        && str_pairs(self.values@)[q].1.value.len() <= u64::MAX,
            decreases self.values@.len() - i,
        {
            let ghost pre = out@;
            let ghost ps = str_pairs(self.values@);
            push_str_tok(&mut out, &self.values[i].0);
            push_num(&mut out, self.values[i].1.time as u64);
            push_num(&mut out, self.values[i].1.version as u64);
            push_str_tok(&mut out, &self.values[i].1.value);
            proof {
                assert(entry_wf(ps[i as int], snap.last_update));
                assert((self.values@[i as int].1.time as u64) as nat == ps[i as int].1.time as nat);
                assert((self.values@[i as int].1.version as u64) as nat == ps[
                    i as int
                ].1.version as nat);
                assert(out@ =~= pre + enc_entry(ps[i as int]));
                assert(ps.take(i as int + 1).drop_last() =~= ps.take(i as int));
                assert(ps.take(i as int + 1).last() == ps[i as int]);
                assert(enc_entries(ps.take(i as int + 1)) == enc_entries(ps.take(i as int))
                    + enc_entry(ps[i as int]));
                assert(out@ =~= head + enc_entries(ps.take(i as int + 1)));
            }
            i = i + 1;
        }
        proof {
            assert(str_pairs(self.values@).take(self.values@.len() as int) =~= str_pairs(
                self.values@,
            ));
            assert(out@ =~= spec_encode(snap));
            assert(snap.pairs.len() <= u64::MAX);
            assert(snap_bounded(snap));
        }
        out
    }

    /// Prepares a flush: refreshes `last_write` -- forward, never back --
    /// and returns the snapshot text to be written to the store's path, so
    /// that the persisted snapshot's own `last_write` reflects the flush
    /// that wrote it. With an empty path persistence is disabled: nothing
    /// changes and no text is produced, which a caller reports as success.
    /// The text returned is canonical: it decodes back to exactly the
    /// flushed store.
    pub fn prepare_flush(&mut self) -> (r: Option<String>)
        requires
            old(self).wf(),
        ensures
            final(self).wf(),
            old(self).path@.len() == 0 ==> r is None && *final(self) == *old(self),
            old(self).path@.len() > 0 ==> ({
                &&& r matches Some(text) && text@ == spec_encode(final(self).snap())
                    && spec_decode(text@) == Some(final(self).snap())
                &&& final(self).path == old(self).path
                &&& final(self).values == old(self).values
                &&& final(self).metrics.last_update == old(self).metrics.last_update
                &&& final(self).metrics.size == old(self).metrics.size
                &&& final(self).metrics.last_write > 0
                &&& final(self).metrics.last_write >= old(self).metrics.last_write
            }),
    {
        if self.path.as_str().is_empty() {
            return None;
        }
        let now = now_stamp();
        self.metrics.last_write = if now >= self.metrics.last_write {
            now
        } else {
            self.metrics.last_write
        };
        let cs = self.encode_chars();
        let text = string_from_chars(&cs);
        proof {
            lemma_snapshot_round_trip(self.snap());
        }
        Some(text)
    }

    /// Reads a store back from a snapshot text. Exactly the canonical texts
    /// are accepted -- whatever [`Store::prepare_flush`] produced -- and the
    /// store read back is well-formed; everything else is rejected with a
    /// decode error.
    pub fn from_snapshot(text: &str) -> (r: Result<Store, DecodeError>)
        ensures
            match r {
                Ok(s) => spec_decode(text@) == Some(s.snap()) && s.wf(),
                Err(_) => spec_decode(text@) is None,
            },
    {
        let l = text.unicode_len();
        let mut cs: Vec<char> = Vec::new();
        let mut q: usize = 0;
        while q < l
            invariant
                0 <= q <= l,
                l == text@.len(),
                cs@ =~= text@.take(q as int),
            decreases l - q,
        {
            let c = text.get_char(q);
            cs.push(c);
            proof {
                assert(text@.take(q as int + 1) =~= text@.take(q as int).push(text@[q as int]));
            }
            q = q + 1;
        }
        proof {
            assert(cs@ =~= text@);
        }
        if cs.len() < 5 {
            return Err(DecodeError::Malformed);
        }
        if !(cs[0] == 's' && cs[1] == 'k' && cs[2] == 'v' && cs[3] == 's' && cs[4] == ';') {
            proof {
                assert(text@.take(5)[0] == text@[0]);
                assert(text@.take(5)[1] == text@[1]);
                assert(text@.take(5)[2] == text@[2]);
                assert(text@.take(5)[3] == text@[3]);
                assert(text@.take(5)[4] == text@[4]);
                assert(text@.take(5) != magic());
            }
            return Err(DecodeError::Malformed);
        }
        proof {
            assert(text@.take(5) =~= magic());
            assert(cs@.skip(5) == text@.skip(5));
        }
        let max64 = i64::MAX as u64;
        let (lu, p1) = match parse_num(&cs, 5) {
            None => {
                return Err(DecodeError::Malformed);
            },
            Some(x) => x,
        };
        if lu > max64 {
            return Err(DecodeError::Malformed);
        }
        let (lw, p2) = match parse_num(&cs, p1) {
            None => {
                return Err(DecodeError::Malformed);
            },
            Some(x) => x,
        };
        if lw > max64 {
            return Err(DecodeError::Malformed);
        }
        let (size, p3) = match parse_num(&cs, p2) {
            None => {
                return Err(DecodeError::Malformed);
            },
            Some(x) => x,
        };
        let (path, p4) = match parse_str(&cs, p3) {
            None => {
                return Err(DecodeError::Malformed);
            },
            Some(x) => x,
        };
        let (count, p5) = match parse_num(&cs, p4) {
            None => {
                return Err(DecodeError::Malformed);
            },
            Some(x) => x,
        };
        if count != size {
            return Err(DecodeError::Malformed);
        }
        let mut values: Vec<(String, Entry)> = Vec::new();
        let mut pos: usize = p5;
        let mut idx: u64 = 0;
        proof {
            assert(str_pairs(values@) =~= Seq::<(Seq<char>, EntryV)>::empty());
            assert(spec_decode(text@) == (match sp_parse_entries(
                cs@.skip(p5 as int),
                count as nat,
                lu as int,
                Seq::empty(),
            ) {
                None => None::<SnapV>,
                Some((ps, rest)) => if rest.len() != 0 {
                    None::<SnapV>
                } else {
                    Some(
                        SnapV {
                            path: path@,
                            last_update: lu as int,
                            last_write: lw as int,
                            size: size as int,
                            pairs: ps,
                        },
                    )
                },
            }));
        }
        while idx < count
            invariant
                pos <= cs@.len(),
                idx <= count,
                values@.len() == idx,
                cs@ == text@,
                max64 == i64::MAX as u64,
                lu <= max64,
                spec_decode(text@) == (match sp_parse_entries(
                    cs@.skip(pos as int),
                    (count - idx) as nat,
                    lu as int,
                    str_pairs(values@),
                ) {
                    None => None::<SnapV>,
                    Some((ps, rest)) => if rest.len() != 0 {
                        None::<SnapV>
                    } else {
                        Some(
                            SnapV {
                                path: path@,
                                last_update: lu as int,
                                last_write: lw as int,
                                size: size as int,
                                pairs: ps,
                            },
                        )
                    },
                }),
            decreases count - idx,
        {
            let ghost acc = str_pairs(values@);
            let (key, q1) = match parse_str(&cs, pos) {
                None => {
                    return Err(DecodeError::Malformed);
                },
                Some(x) => x,
            };
            if key.as_str().is_empty() {
                return Err(DecodeError::Malformed);
            }
            proof {
                assert(forall|j: int|
                    0 <= j < values@.len() ==> (#[trigger] acc[j]).0 == values@[j].0@);
            }
            match find_key(&values, &key) {
                Some(ix) => {
                    proof {
                        assert(acc[ix as int].0 == key@);
                        assert(has_key(acc, key@));
                    }
                    return Err(DecodeError::Malformed);
                },
                None => {
                    proof {
                        assert(forall|j: int|
                            0 <= j < values@.len() ==> values@[j].0@ != key@);
                        assert(!has_key(acc, key@));
                    }
                },
            }
            let (t_val, q2) = match parse_num(&cs, q1) {
                None => {
                    return Err(DecodeError::Malformed);
                },
                Some(x) => x,
            };
            if t_val < 1 || t_val > lu {
                return Err(DecodeError::Malformed);
            }
            let (ver, q3) = match parse_num(&cs, q2) {
                None => {
                    return Err(DecodeError::Malformed);
                },
                Some(x) => x,
            };
            if ver < 1 || ver > max64 {
                return Err(DecodeError::Malformed);
            }
            let (val, q4) = match parse_str(&cs, q3) {
                None => {
                    return Err(DecodeError::Malformed);
                },
                Some(x) => x,
            };
            if val.as_str().is_empty() {
                return Err(DecodeError::Malformed);
            }
            let e = Entry { time: t_val as i64, version: ver as i64, value: val };
            let ghost kview = key@;
            let ghost eview = e@;
            values.push((key, e));
            proof {
                assert(str_pairs(values@) =~= acc.push((kview, eview)));
                assert(eview == EntryV {
                    time: t_val as int,
                    version: ver as int,
                    value: eview.value,
                });
            }
            pos = q4;
            idx = idx + 1;
        }
        if pos != cs.len() {
            proof {
                assert(cs@.skip(pos as int).len() != 0);
            }
            return Err(DecodeError::Malformed);
        }
        proof {
            assert(cs@.skip(pos as int).len() == 0);
        }
        let st = Store {
            path,
            metrics: Metrics {
                last_update: lu as i64,
                last_write: lw as i64,
                size: values.len(),
            },
            values,
        };
        proof {
            assert(spec_decode(text@) == Some(st.snap()));
            lemma_decode_wf(text@);
            assert(st.wf());
        }
        Ok(st)
    }
}

/// After an insert of a fresh key with a non-empty value the store holds it,
/// and a second insert under the same key -- whatever value it carries -- is
/// rejected with `AlreadyExists` and changes nothing, the stored value
/// staying the first one.
pub proof fn lemma_insert_then_insert(
    s: StoreV,
    k: Seq<char>,
    v1: Seq<char>,
    v2: Seq<char>,
    t1: int,
    t2: int,
)
    requires
        !s.entries.contains_key(k),
        v1.len() > 0,
    ensures
        insert_outcome(s, k, v1) == Ok::<WriteResult, StoreError>(WriteResult::Inserted),
        insert_outcome(insert_state(s, k, v1, t1), k, v2) == Ok::<WriteResult, StoreError>(
            WriteResult::AlreadyExists,
        ),
        insert_state(insert_state(s, k, v1, t1), k, v2, t2) == insert_state(s, k, v1, t1),
        insert_state(s, k, v1, t1).entries[k].value == v1,
{
}

/// Two updates of an absent key with distinct non-empty values leave an
/// entry at version 2 holding the second value, its timestamp not behind the
/// first one's.
pub proof fn lemma_update_then_update(
    s: StoreV,
    k: Seq<char>,
    v1: Seq<char>,
    v2: Seq<char>,
    t1: int,
    t2: int,
)
    requires
        !s.entries.contains_key(k),
        v1.len() > 0,
        v2.len() > 0,
        v1 != v2,
    ensures
        update_outcome(s, k, v1) == Ok::<WriteResult, StoreError>(WriteResult::Inserted),
        update_outcome(update_state(s, k, v1, t1), k, v2) == Ok::<WriteResult, StoreError>(
            WriteResult::Updated,
        ),
        update_state(update_state(s, k, v1, t1), k, v2, t2).entries[k].version == 2,
        update_state(update_state(s, k, v1, t1), k, v2, t2).entries[k].value == v2,
        update_state(update_state(s, k, v1, t1), k, v2, t2).entries[k].time >= update_state(
            s,
            k,
            v1,
            t1,
        ).entries[k].time,
{
    let s1 = update_state(s, k, v1, t1);
    assert(s1.entries[k].version == 1);
    assert(s1.entries[k].value == v1);
    assert(s1.entries[k].time == write_stamp(s.last_update, t1));
    assert(s1.last_update == write_stamp(s.last_update, t1));
}

/// The no-op law: a second update with the very value the key now holds
/// leaves the entry -- version and timestamp included -- unchanged, whatever
/// store the first update started from.
pub proof fn lemma_update_idempotent(s: StoreV, k: Seq<char>, v: Seq<char>, t1: int, t2: int)
    requires
        v.len() > 0,
    ensures
        update_state(update_state(s, k, v, t1), k, v, t2).entries == update_state(
            s,
            k,
            v,
            t1,
        ).entries,
        update_state(update_state(s, k, v, t1), k, v, t2).entries[k].version == update_state(
            s,
            k,
            v,
            t1,
        ).entries[k].version,
{
    let s1 = update_state(s, k, v, t1);
    assert(s1.entries.contains_key(k));
    assert(s1.entries[k].value == v);
}

/// The metrics `size` field counts the live keys: every write transition
/// keeps it equal to the number of entries.
pub proof fn lemma_size_counts_live_keys(
    s: StoreV,
    k: Seq<char>,
    v: Seq<char>,
    t: int,
)
    requires
        s.entries.dom().finite(),
        s.size == s.entries.len(),
    ensures
        insert_state(s, k, v, t).size == insert_state(s, k, v, t).entries.len(),
        update_state(s, k, v, t).size == update_state(s, k, v, t).entries.len(),
        delete_state(s, k, t).size == delete_state(s, k, t).entries.len(),
{
    if !s.entries.contains_key(k) {
        assert(s.entries.insert(k, insert_state(s, k, v, t).entries[k]).len() == s.entries.len()
            + 1);
    }
    if s.entries.contains_key(k) {
        assert(s.entries.remove(k).len() == s.entries.len() - 1);
        if v.len() > 0 && s.entries[k].value != v {
            let e = EntryV {
                time: write_stamp(s.last_update, t),
                version: s.entries[k].version + 1,
                value: v,
            };
            assert(s.entries.insert(k, e).len() == s.entries.len());
        }
    }
}

/// Deleting an absent key reports `DoesNotExist` and leaves the store --
/// size included -- unchanged; deleting a present key reports `Updated`,
/// shrinks the size by exactly 1 and leaves the key unbound, so a following
/// `get` returns nothing.
pub proof fn lemma_delete(s: StoreV, k: Seq<char>, t: int)
    ensures
        !s.entries.contains_key(k) ==> delete_outcome(s, k) == WriteResult::DoesNotExist
            && delete_state(s, k, t) == s,
        s.entries.contains_key(k) ==> delete_outcome(s, k) == WriteResult::Updated
            && delete_state(s, k, t).size == s.size - 1 && !delete_state(
            s,
            k,
            t,
        ).entries.contains_key(k),
{
}

} // verus!
