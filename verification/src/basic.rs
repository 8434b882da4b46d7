//! A key-value store with additional metadata about the store and no
//! persistence: string keys map to [`Value`] records, and the metrics keep
//! the last-update timestamp and the live key count.

use vstd::prelude::*;

use crate::clock::now_stamp;
use crate::kvmap::{
    find_key, has_key, lemma_pairs_map_domain, lemma_pairs_map_index, lemma_pairs_map_len,
    lemma_pairs_map_remove, pairs_map, str_pairs, unique_keys,
};
use crate::store::write_stamp;

verus! {

/// The mathematical value of a [`Value`].
pub ghost struct ValueV {
    pub timestamp: int,
    pub version: int,
    pub value: Seq<char>,
}

/// A string held in the store together with its metadata: the timestamp of
/// the last write to it and a version counter starting at 1.
#[derive(Clone, Debug)]
pub struct Value {
    /// The timestamp of the last write on this record.
    pub timestamp: i64,

    /// Grown by exactly 1 on each value-changing write.
    pub version: u64,

    /// The stored string.
    pub value: String,
}

impl View for Value {
    type V = ValueV;

    open spec fn view(&self) -> ValueV {
        ValueV {
            timestamp: self.timestamp as int,
            version: self.version as int,
            value: self.value@,
        }
    }
}

impl Default for Value {
    /// A fresh record: version 1, empty value, stamped with the current
    /// clock reading.
    fn default() -> (r: Value)
        ensures
            r@.version == 1,
            r@.value.len() == 0,
            r.timestamp > 0,
    {
        Value { timestamp: now_stamp(), version: 1, value: String::new() }
    }
}

impl Value {
    /// A new record carrying `v`. Equal values are a true no-op -- the copy
    /// keeps the old timestamp and version -- and a changed value grows the
    /// version by exactly 1, the timestamp never moving back.
    fn update(&self, v: &String) -> (r: Value)
        requires
            v@ != self.value@ ==> self.version < u64::MAX,
        ensures
            v@ == self.value@ ==> r@ == self@,
            v@ != self.value@ ==> r@.version == self@.version + 1 && r@.value == v@,
            r.timestamp >= self.timestamp,
            v@ != self.value@ ==> r.timestamp > 0,
    {
        if self.value == *v {
            Value {
                timestamp: self.timestamp,
                version: self.version,
                value: self.value.clone(),
            }
        } else {
            let now = now_stamp();
            let timestamp = if now >= self.timestamp {
                now
            } else {
                self.timestamp
            };
            Value { timestamp, version: self.version + 1, value: v.clone() }
        }
    }
}

/// Information about the key-value store.
#[derive(Clone, Debug)]
pub struct Metrics {
    /// The timestamp of the last time the store was updated; a call to
    /// `Store::add` or `Store::delete` refreshes it.
    pub last_update: i64,

    /// The timestamp of the last time the store was written to disk.
    pub last_write: i64,

    /// The current number of keys in the store.
    pub size: usize,

    /// Why the last write failed; empty while no write has failed.
    pub write_error: String,
}

impl Metrics {
    /// An all-zero `Metrics` record with no write error.
    pub fn new() -> (r: Metrics)
        ensures
            r.last_update == 0,
            r.last_write == 0,
            r.size == 0,
            r.write_error@.len() == 0,
    {
        Metrics { last_update: 0, last_write: 0, size: 0, write_error: String::new() }
    }
}

/// The mathematical value of a [`Store`].
pub ghost struct StoreV {
    pub path: Seq<char>,
    pub last_update: int,
    pub last_write: int,
    pub size: int,
    pub entries: Map<Seq<char>, ValueV>,
}

/// A store of key-value pairs along with metadata about the store.
#[derive(Clone, Debug)]
pub struct Store {
    /// The disk path for the store; unused while empty.
    pub path: String,

    /// Metadata about the store.
    pub metrics: Metrics,

    /// The key-value pairs, keys pairwise distinct.
    pub values: Vec<(String, Value)>,
}

impl View for Store {
    type V = StoreV;

    open spec fn view(&self) -> StoreV {
        StoreV {
            path: self.path@,
            last_update: self.metrics.last_update as int,
            last_write: self.metrics.last_write as int,
            size: self.metrics.size as int,
            entries: pairs_map(str_pairs(self.values@)),
        }
    }
}

/// The store `add` leaves behind when it accepts the value and the clock
/// read `now`: an upsert keeping the no-op rule for unchanged values, the
/// metrics refreshed either way.
pub open spec fn add_state(s: StoreV, k: Seq<char>, v: Seq<char>, now: int) -> StoreV {
    if v.len() == 0 {
        s
    } else {
        let ts = write_stamp(s.last_update, now);
        if !s.entries.contains_key(k) {
            StoreV {
                last_update: ts,
                size: s.size + 1,
                entries: s.entries.insert(k, ValueV { timestamp: ts, version: 1, value: v }),
                ..s
            }
        } else if s.entries[k].value == v {
            StoreV { last_update: ts, ..s }
        } else {
            StoreV {
                last_update: ts,
                entries: s.entries.insert(
                    k,
                    ValueV { timestamp: ts, version: s.entries[k].version + 1, value: v },
                ),
                ..s
            }
        }
    }
}

/// The store `delete` leaves behind when the clock read `now`.
pub open spec fn delete_state(s: StoreV, k: Seq<char>, now: int) -> StoreV {
    if s.entries.contains_key(k) {
        StoreV {
            last_update: write_stamp(s.last_update, now),
            size: s.size - 1,
            entries: s.entries.remove(k),
            ..s
        }
    } else {
        s
    }
}

impl Store {
    /// Well-formedness: keys distinct and non-empty, values non-empty with
    /// positive versions, record timestamps between 1 and `last_update`,
    /// and the metrics size equal to the number of live keys.
    pub open spec fn wf(self) -> bool {
        &&& 0 <= self@.last_update <= i64::MAX
        &&& self.metrics.size == self.values@.len()
        &&& unique_keys(str_pairs(self.values@))
        &&& forall|i: int|
            0 <= i < self.values@.len() ==> {
                let p = #[trigger] str_pairs(self.values@)[i];
                &&& p.0.len() > 0
                &&& p.1.value.len() > 0
                &&& 1 <= p.1.version <= u64::MAX
                &&& 1 <= p.1.timestamp <= self@.last_update
            }
    }

    /// Initialises a new, empty store.
    pub fn new() -> (r: Store)
        ensures
            r.wf(),
            r@.path.len() == 0,
            r@.last_update == 0,
            r@.last_write == 0,
            r@.size == 0,
            r.metrics.write_error@.len() == 0,
            r@.entries == Map::<Seq<char>, ValueV>::empty(),
    {
        let r = Store { path: String::new(), metrics: Metrics::new(), values: Vec::new() };
        proof {
            assert(str_pairs(r.values@) =~= Seq::<(Seq<char>, ValueV)>::empty());
        }
        r
    }

    /// Writes `vs` under `key`, creating the record or replacing it with an
    /// updated timestamp and version, and refreshes the metrics
    /// (`last_update` and `size`). An empty value is not valid in this
    /// store: it is rejected with `false` and nothing changes.
    pub fn add(&mut self, key: String, vs: String) -> (r: bool)
        requires
            old(self).wf(),
            key@.len() > 0,
            vs@.len() > 0 && old(self)@.entries.contains_key(key@)
                && old(self)@.entries[key@].value != vs@ ==> old(self)@.entries[key@].version
                < u64::MAX,
        ensures
            final(self).wf(),
            r == (vs@.len() > 0),
            vs@.len() == 0 ==> *final(self) == *old(self),
            exists|now: int|
                0 < now <= i64::MAX && final(self)@ == add_state(old(self)@, key@, vs@, now),
            final(self)@.last_update >= old(self)@.last_update,
            final(self).metrics.write_error == old(self).metrics.write_error,
            final(self).metrics.last_write == old(self).metrics.last_write,
    {
        let ghost pre = self@;
        let ghost pre_pairs = str_pairs(self.values@);
        proof {
            lemma_pairs_map_domain(pre_pairs);
        }
        if vs.as_str().is_empty() {
            proof {
                assert(exists|now: int|
                    0 < now <= i64::MAX && self@ == add_state(pre, key@, vs@, now)) by {
                    assert(self@ == add_state(pre, key@, vs@, 1));
                }
            }
            return false;
        }
        let now = now_stamp();
        let ts = if now >= self.metrics.last_update {
            now
        } else {
            self.metrics.last_update
        };
        let ghost kview = key@;
        let ghost vview = vs@;
        match find_key(&self.values, &key) {
            None => {
                proof {
                    assert(forall|j: int|
                        0 <= j < pre_pairs.len() ==> #[trigger] pre_pairs[j].0 != kview);
                    assert(!has_key(pre_pairs, kview));
                }
                let v = Value { timestamp: ts, version: 1, value: vs };
                self.values.push((key, v));
                proof {
                    let ps = str_pairs(self.values@);
                    assert(ps =~= pre_pairs.push(
                        (kview, ValueV { timestamp: ts as int, version: 1, value: vview }),
                    ));
                    assert(ps.drop_last() =~= pre_pairs);
                    assert(unique_keys(ps)) by {
                        assert(forall|j: int|
                            0 <= j < pre_pairs.len() ==> ps[j] == pre_pairs[j]);
                    }
                }
            },
            Some(i) => {
                proof {
                    assert(str_pairs(self.values@)[i as int].0 == kview);
                    assert(has_key(pre_pairs, kview));
                    lemma_pairs_map_index(pre_pairs, i as int);
                    assert(pre.entries[kview] == self.values@[i as int].1@);
                }
                let same = self.values[i].1.value == vs;
                if !same {
                    let mut v = self.values[i].1.update(&vs);
                    v.timestamp = ts;
                    let _ = self.values.remove(i);
                    proof {
                        assert(str_pairs(self.values@) =~= pre_pairs.remove(i as int));
                        lemma_pairs_map_remove(pre_pairs, i as int);
                    }
                    let ghost mid_pairs = str_pairs(self.values@);
                    proof {
                        lemma_pairs_map_domain(mid_pairs);
                        assert(!pairs_map(mid_pairs).contains_key(kview));
                        assert(!has_key(mid_pairs, kview));
                        assert(forall|j: int|
                            0 <= j < mid_pairs.len() ==> #[trigger] mid_pairs[j].0 != kview);
                    }
                    self.values.push((key, v));
                    proof {
                        let ps = str_pairs(self.values@);
                        assert(ps =~= mid_pairs.push(
                            (kview, ValueV {
                                timestamp: ts as int,
                                version: pre.entries[kview].version + 1,
                                value: vview,
                            }),
                        ));
                        assert(ps.drop_last() =~= mid_pairs);
                        assert(unique_keys(ps)) by {
                            assert(forall|j: int|
                                0 <= j < mid_pairs.len() ==> ps[j] == mid_pairs[j]);
                        }
                    }
                }
            },
        }
        self.metrics.last_update = ts;
        self.metrics.size = self.values.len();
        proof {
            if pre.entries.contains_key(kview) {
                if pre.entries[kview].value == vview {
                    assert(str_pairs(self.values@) =~= pre_pairs);
                    assert(self@.entries =~= add_state(pre, kview, vview, now as int).entries);
                } else {
                    assert(self@.entries =~= pre.entries.remove(kview).insert(
                        kview,
                        ValueV {
                            timestamp: ts as int,
                            version: pre.entries[kview].version + 1,
                            value: vview,
                        },
                    ));
                    assert(self@.entries =~= add_state(pre, kview, vview, now as int).entries);
                    lemma_pairs_map_len(pre_pairs);
                    lemma_pairs_map_len(str_pairs(self.values@));
                }
            } else {
                assert(self@.entries =~= add_state(pre, kview, vview, now as int).entries);
            }
            assert(self@ == add_state(pre, kview, vview, now as int));
            assert(exists|n: int|
                0 < n <= i64::MAX && self@ == add_state(pre, kview, vview, n)) by {
                assert(self@ == add_state(pre, kview, vview, now as int));
            }
            assert(self.wf());
        }
        true
    }

    /// Returns the [`Value`] record held for the key, or `None` when the key
    /// is absent.
    pub fn get(self, key: String) -> (r: Option<Value>)
        requires
            self.wf(),
        ensures
            match r {
                Some(v) => self@.entries.contains_key(key@) && v@ == self@.entries[key@],
                None => !self@.entries.contains_key(key@),
            },
    {
        proof {
            lemma_pairs_map_domain(str_pairs(self.values@));
        }
        match find_key(&self.values, &key) {
            Some(i) => {
                proof {
                    assert(str_pairs(self.values@)[i as int].0 == key@);
                    assert(has_key(str_pairs(self.values@), key@));
                    lemma_pairs_map_index(str_pairs(self.values@), i as int);
                }
                let v = Value {
                    timestamp: self.values[i].1.timestamp,
                    version: self.values[i].1.version,
                    value: self.values[i].1.value.clone(),
                };
                Some(v)
            },
            None => {
                proof {
                    assert(forall|j: int|
                        0 <= j < str_pairs(self.values@).len() ==> #[trigger] str_pairs(
                            self.values@,
                        )[j].0 != key@);
                    assert(!has_key(str_pairs(self.values@), key@));
                }
                None
            },
        }
    }

    /// Removes the record held for the key, reporting whether one was there;
    /// a removal refreshes the metrics.
    pub fn delete(&mut self, key: String) -> (r: bool)
        requires
            old(self).wf(),
        ensures
            final(self).wf(),
            r == old(self)@.entries.contains_key(key@),
            exists|now: int|
                0 < now <= i64::MAX && final(self)@ == delete_state(old(self)@, key@, now),
            final(self)@.last_update >= old(self)@.last_update,
            !old(self)@.entries.contains_key(key@) ==> *final(self) == *old(self),
            final(self).metrics.write_error == old(self).metrics.write_error,
            final(self).metrics.last_write == old(self).metrics.last_write,
    {
        let ghost pre = self@;
        let ghost pre_pairs = str_pairs(self.values@);
        proof {
            lemma_pairs_map_domain(pre_pairs);
        }
        match find_key(&self.values, &key) {
            Some(i) => {
                proof {
                    assert(str_pairs(self.values@)[i as int].0 == key@);
                    assert(has_key(pre_pairs, key@));
                }
                let now = now_stamp();
                let ts = if now >= self.metrics.last_update {
                    now
                } else {
                    self.metrics.last_update
                };
                let _ = self.values.remove(i);
                self.metrics.last_update = ts;
                self.metrics.size = self.values.len();
                proof {
                    assert(str_pairs(self.values@) =~= pre_pairs.remove(i as int));
                    lemma_pairs_map_remove(pre_pairs, i as int);
                    assert(self@.entries =~= pre.entries.remove(key@));
                    assert(self@ == delete_state(pre, key@, now as int));
                    assert(exists|n: int|
                        0 < n <= i64::MAX && self@ == delete_state(pre, key@, n)) by {
                        assert(self@ == delete_state(pre, key@, now as int));
                    }
                    assert(self.wf());
                }
                true
            },
            None => {
                proof {
                    assert(forall|j: int|
                        0 <= j < pre_pairs.len() ==> #[trigger] pre_pairs[j].0 != key@);
                    assert(!has_key(pre_pairs, key@));
                    assert(exists|n: int|
                        0 < n <= i64::MAX && self@ == delete_state(pre, key@, n)) by {
                        assert(self@ == delete_state(pre, key@, 1));
                    }
                }
                false
            },
        }
    }

    /// The timestamp of the last update on the store.
    pub fn last_updated(self) -> (r: i64)
        ensures
            r as int == self@.last_update,
    {
        self.metrics.last_update
    }
}

} // verus!
