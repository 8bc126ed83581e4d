//! The engine: set, get and remove over the log, its index and the cache,
//! with compaction once the log grows past a threshold.

use std::collections::HashMap;
use std::path::PathBuf;

use vstd::prelude::*;
use vstd::slice::slice_subrange;
use vstd::utf8::{decode_utf8, encode_utf8, valid_utf8};

use crate::cache::{entry_size, total_size, within_budget, ValueCache, KEY_WIDTH, MAX_CACHE_SIZE};
use crate::error::KvError;
use crate::log::{
    lemma_live_total_insert, lemma_live_total_other, lemma_live_total_prefix,
    lemma_parse_append_remove, lemma_parse_append_set, lemma_parse_in_bounds, live_record_len,
    live_total, load_index, log_contents, log_index, pos_of, values_of, MemIndex, ValuePos,
};
use crate::record::{
    lemma_key_round_trip, lemma_len_round_trip, remove_record, set_record, write_remove_record, write_set_record, REMOVE_RECORD_LEN, SET_HEADER_LEN,
};

verus! {

broadcast use vstd::std_specs::hash::group_hash_axioms;

#[verifier::external_type_specification]
#[verifier::external_body]
pub struct ExPathBuf(PathBuf);

/// Relies on `PathBuf`'s `Clone`, which copies the path.
pub assume_specification[ <PathBuf as Clone>::clone ](p: &PathBuf) -> PathBuf;

/// Log size that triggers compaction unless configured otherwise: 100 MiB.
pub const DEFAULT_GC_THRESHOLD: u64 = 100 * 1024 * 1024;

/// The text that decoding `b` as UTF-8 gives, each invalid sequence
/// replaced by U+FFFD.
pub uninterp spec fn lossy_utf8(b: Seq<u8>) -> Seq<char>;

/// Relies on `String::from_utf8_lossy`: the text depends on the bytes alone,
/// and valid UTF-8 decodes unchanged.
#[verifier::external_body]
fn decode_lossy(b: &[u8]) -> (r: String)
    ensures
        r@ == lossy_utf8(b@),
        valid_utf8(b@) ==> r@ == decode_utf8(b@),
{
    String::from_utf8_lossy(b).into_owned()
}

/// Relies on `PathBuf::from`: a path made of the text `s`.
#[verifier::external_body]
fn path_from(s: &str) -> (r: PathBuf) {
    PathBuf::from(s)
}

/// Settings of a store.
#[derive(Clone, Debug)]
pub struct Config {
    /// The directory that holds the log.
    pub path: PathBuf,
    /// Log size in bytes above which a write triggers compaction.
    pub gc_threshold: u64,
}

impl Default for Config {
    /// The directory `db` and a threshold of 100 MiB.
    fn default() -> (r: Self)
        ensures
            r.gc_threshold == DEFAULT_GC_THRESHOLD,
    {
        Config { path: path_from("db"), gc_threshold: DEFAULT_GC_THRESHOLD }
    }
}

/// The two indexes give every key the same live value position.
pub open spec fn same_live(a: Map<i64, Option<ValuePos>>, b: Map<i64, Option<ValuePos>>) -> bool {
    forall|k: i64| #![trigger pos_of(a, k)] #![trigger pos_of(b, k)] pos_of(a, k) == pos_of(b, k)
}

/// The text that the bytes `b` decode to: as they stand when they are
/// valid UTF-8, with replacement characters otherwise.
pub open spec fn utf8_text(b: Seq<u8>) -> Seq<char> {
    if valid_utf8(b) {
        decode_utf8(b)
    } else {
        lossy_utf8(b)
    }
}

/// What a get of `k` answers on contents `m`: the value decoded as text.
pub open spec fn lookup(m: Map<i64, Seq<u8>>, k: i64) -> Option<Seq<char>> {
    if m.contains_key(k) {
        Some(utf8_text(m[k]))
    } else {
        None
    }
}

/// The text that an optional string holds.
pub open spec fn text_of(v: Option<String>) -> Option<Seq<char>> {
    match v {
        Some(s) => Some(s@),
        None => None,
    }
}

/// A log of one set record per key of `ks`, in that order, holding the
/// values of `vals`.
pub open spec fn set_records(ks: Seq<i64>, vals: Map<i64, Seq<u8>>) -> Seq<u8>
    decreases ks.len(),
{
    if ks.len() == 0 {
        Seq::empty()
    } else {
        set_records(ks.drop_last(), vals) + set_record(ks.last(), vals[ks.last()])
    }
}

/// `log` holds one set record for each key of `m`, with its value, and
/// nothing else.
pub open spec fn is_compacted_log(log: Seq<u8>, m: Map<i64, Seq<u8>>) -> bool {
    exists|ks: Seq<i64>|
        ks.no_duplicates() && ks.to_set() == m.dom() && log == #[trigger] set_records(ks, m)
}

/// Values that lie inside a log stay what they are when bytes are appended.
proof fn lemma_values_append(log: Seq<u8>, extra: Seq<u8>, idx: Map<i64, Option<ValuePos>>)
    requires
        forall|k: i64| #[trigger]
            pos_of(idx, k) is Some ==> pos_of(idx, k)->Some_0.offset + pos_of(
                idx,
                k,
            )->Some_0.size <= log.len(),
    ensures
        values_of(log + extra, idx) == values_of(log, idx),
{
    assert forall|k: i64| #[trigger]
        values_of(log, idx).contains_key(k) implies values_of(log + extra, idx)[k]
        == values_of(log, idx)[k] by {
        assert(pos_of(idx, k) is Some);
        let p = idx[k]->Some_0;
        assert((log + extra).subrange(p.offset as int, p.offset + p.size) =~= log.subrange(
            p.offset as int,
            p.offset + p.size,
        ));
    }
    assert(values_of(log + extra, idx) =~= values_of(log, idx));
}

/// An open or closed store of `i64` keys and text values.
pub struct KvDb {
    config: Config,
    log: Vec<u8>,
    index: MemIndex,
    keys: Vec<i64>,
    cache: ValueCache,
    file_size: u64,
    closed: bool,
    compactions: u64,
}

impl View for KvDb {
    type V = Map<i64, Seq<u8>>;

    /// The live value of each key.
    closed spec fn view(&self) -> Map<i64, Seq<u8>> {
        values_of(self.log@, self.index@)
    }
}

impl KvDb {
    /// The bytes of the log.
    pub closed spec fn log(&self) -> Seq<u8> {
        self.log@
    }

    pub closed spec fn is_closed_spec(&self) -> bool {
        self.closed
    }

    pub closed spec fn threshold(&self) -> u64 {
        self.config.gc_threshold
    }

    pub closed spec fn compaction_count(&self) -> u64 {
        self.compactions
    }

    /// The entries of the value cache.
    pub closed spec fn cached(&self) -> Seq<(i64, Seq<char>)> {
        self.cache.entries()
    }

    pub closed spec fn wf(&self) -> bool {
        &&& self.file_size as nat == self.log@.len()
        &&& log_index(self.log@) is Some
        &&& same_live(log_index(self.log@)->Some_0, self.index@)
        &&& forall|k: i64| #[trigger]
            pos_of(self.index@, k) is Some ==> pos_of(self.index@, k)->Some_0.offset + pos_of(
                self.index@,
                k,
            )->Some_0.size <= self.log@.len()
        &&& self.keys@.no_duplicates()
        &&& self.keys@.to_set() == self.index@.dom()
        &&& live_total(self.keys@, self.index@) <= self.log@.len()
        &&& self.cache.wf()
        &&& forall|i: int|
            0 <= i < self.cache.entries().len() ==> self@.contains_key(
                (#[trigger] self.cache.entries()[i]).0,
            ) && self.cache.entries()[i].1 == utf8_text(self@[self.cache.entries()[i].0])
    }

    /// Opens a store over the bytes of an existing log (empty for a new
    /// store), rebuilding the index by replaying it. A log with an unknown
    /// tag or a truncated record is refused with `InvalidFormat`.
    pub fn open(config: Config, data: Vec<u8>) -> (r: Result<KvDb, KvError>)
        ensures
            r is Ok <==> log_contents(data@) is Some,
            match r {
                Ok(db) => {
                    &&& db.wf()
                    &&& db@ == log_contents(data@)->Some_0
                    &&& db.log() == data@
                    &&& !db.is_closed_spec()
                    &&& db.threshold() == config.gc_threshold
                    &&& db.cached().len() == 0
                },
                Err(e) => e is InvalidFormat,
            },
    {
        match load_index(data.as_slice()) {
            Ok((index, keys)) => {
                let file_size = data.len() as u64;
                let db = KvDb {
                    config,
                    log: data,
                    index,
                    keys,
                    cache: ValueCache::new(),
                    file_size,
                    closed: false,
                    compactions: 0,
                };
                proof {
                    lemma_parse_in_bounds(db.log@, 0, Map::empty());
                }
                Ok(db)
            },
            Err(e) => Err(e),
        }
    }

    /// The value of `key`, decoded as text; `None` when the key was never
    /// set or was removed. A hit in the cache and a read of the log answer
    /// alike.
    pub fn get(&mut self, key: i64) -> (r: Result<Option<String>, KvError>)
        requires
            old(self).wf(),
        ensures
            final(self).wf(),
            final(self)@ == old(self)@,
            final(self).log() == old(self).log(),
            final(self).is_closed_spec() == old(self).is_closed_spec(),
            final(self).threshold() == old(self).threshold(),
            final(self).compaction_count() == old(self).compaction_count(),
            within_budget(final(self).cached()),
            r is Ok <==> !old(self).is_closed_spec(),
            match r {
                Ok(v) => text_of(v) == lookup(old(self)@, key),
                Err(e) => e is DbClosed && final(self).cached() == old(self).cached(),
            },
    {
        if self.closed {
            proof {
                self.cache.lemma_budget_or_alone();
            }
            return Err(KvError::DbClosed);
        }
        let ghost view = self@;
        let ghost s = self.cache.entries();
        let ghost log = self.log@;
        let ghost index = self.index@;
        assert(forall|k: i64| #[trigger]
            pos_of(index, k) is Some ==> pos_of(index, k)->Some_0.offset + pos_of(
                index,
                k,
            )->Some_0.size <= log.len());
        let hit = self.cache.get(key);
        proof {
            let t = self.cache.entries();
            assert forall|i: int| 0 <= i < t.len() implies view.contains_key(
                (#[trigger] t[i]).0,
            ) && t[i].1 == utf8_text(view[t[i].0]) by {
                let j = choose|j: int| 0 <= j < s.len() && s[j] == t[i];
                assert(view.contains_key(s[j].0));
            }
        }
        if let Some(v) = hit {
            proof {
                let j = choose|j: int| 0 <= j < s.len() && s[j] == (key, v@);
                assert(view.contains_key(s[j].0));
            }
            proof {
                self.cache.lemma_budget_or_alone();
            }
            return Ok(Some(v));
        }
        let entry: Option<ValuePos> = match self.index.get(&key) {
            Some(e) => *e,
            None => None,
        };
        proof {
            assert(pos_of(self.index@, key) == entry);
        }
        match entry {
            Some(pos) => {
                assert(pos_of(index, key) is Some);
                let log_len = self.log.len();
                assert(pos.offset + pos.size <= log_len);
                let bytes = slice_subrange(
                    self.log.as_slice(),
                    pos.offset as usize,
                    (pos.offset + pos.size) as usize,
                );
                let value = decode_lossy(bytes);
                let ghost s2 = self.cache.entries();
                self.cache.insert(key, value.clone());
                proof {
                    let t = self.cache.entries();
                    assert(view.contains_key(key));
                    assert(view[key] == bytes@);
                    assert forall|i: int| 0 <= i < t.len() implies view.contains_key(
                        (#[trigger] t[i]).0,
                    ) && t[i].1 == utf8_text(view[t[i].0]) by {
                        if t[i] != (key, value@) {
                            let j = choose|j: int| 0 <= j < s2.len() && s2[j] == t[i];
                            assert(view.contains_key(s2[j].0));
                        }
                    }
                }
                proof {
                    self.cache.lemma_budget_or_alone();
                }
                Ok(Some(value))
            },
            None => {
                proof {
                    assert(!view.contains_key(key));
                    self.cache.lemma_budget_or_alone();
                }
                Ok(None)
            },
        }
    }

    /// Closes the store: every later operation fails with `DbClosed`.
    /// Closing again changes nothing.
    pub fn close(&mut self) -> (r: Result<(), KvError>)
        requires
            old(self).wf(),
        ensures
            final(self).wf(),
            r is Ok,
            final(self).is_closed_spec(),
            final(self)@ == old(self)@,
            final(self).log() == old(self).log(),
            final(self).threshold() == old(self).threshold(),
            final(self).compaction_count() == old(self).compaction_count(),
            final(self).cached() == old(self).cached(),
    {
        self.closed = true;
        Ok(())
    }

    /// Whether the store was closed.
    pub fn is_closed(&self) -> (r: bool)
        ensures
            r == self.is_closed_spec(),
    {
        self.closed
    }

    /// The bytes of the log, which the caller keeps on disk.
    pub fn log_bytes(&self) -> (r: &[u8])
        ensures
            r@ == self.log(),
    {
        self.log.as_slice()
    }

    /// The length of the log in bytes.
    pub fn file_size(&self) -> (r: u64)
        requires
            self.wf(),
        ensures
            r as nat == self.log().len(),
    {
        self.file_size
    }

    /// How many times the log was rewritten; a change tells the caller to
    /// replace its copy of the log whole rather than append to it.
    pub fn compactions(&self) -> (r: u64)
        ensures
            r == self.compaction_count(),
    {
        self.compactions
    }

    /// The bytes that the value cache holds, each entry counting the key
    /// width and its value's length.
    pub fn cache_size(&self) -> (r: u128)
        requires
            self.wf(),
        ensures
            r as nat == total_size(self.cached()),
    {
        self.cache.size()
    }

    /// The settings the store was opened with.
    pub fn config(&self) -> (r: &Config)
        ensures
            r.gc_threshold == self.threshold(),
    {
        &self.config
    }

    /// Rewrites the log with one set record per live key, in the order in
    /// which the keys were first seen, and points the index at the new
    /// records. Removed keys keep their tombstones in the index and leave no
    /// record. The contents do not change, and the log never grows.
    #[verifier::rlimit(100)]
    pub fn garbage_collect(&mut self)
        requires
            old(self).wf(),
        ensures
            final(self).wf(),
            final(self)@ == old(self)@,
            final(self).is_closed_spec() == old(self).is_closed_spec(),
            final(self).threshold() == old(self).threshold(),
            final(self).cached() == old(self).cached(),
            final(self).compaction_count() != old(self).compaction_count(),
            is_compacted_log(final(self).log(), final(self)@),
            final(self).log().len() <= old(self).log().len(),
    {
        let ghost view = self@;
        let ghost index = self.index@;
        let ghost log = self.log@;
        let n = self.keys.len();
        let mut new_log: Vec<u8> = Vec::new();
        let mut new_index: MemIndex = HashMap::new();
        let ghost mut live: Seq<i64> = Seq::empty();
        let mut i: usize = 0;
        proof {
            assert(self.keys@.subrange(0, 0).to_set() =~= new_index@.dom());
            assert(values_of(new_log@, new_index@) =~= view.restrict(new_index@.dom()));
            assert(live.to_set() =~= view.dom().intersect(new_index@.dom()));
            assert(log_index(new_log@) == Some(Map::<i64, Option<ValuePos>>::empty()));
            assert(new_log@ =~= set_records(live, view));
        }
        while i < n
            invariant
                self.wf(),
                self@ == view,
                self.index@ == index,
                self.log@ == log,
                n == self.keys@.len(),
                i <= n,
                new_index@.dom() == self.keys@.subrange(0, i as int).to_set(),
                values_of(new_log@, new_index@) == view.restrict(new_index@.dom()),
                log_index(new_log@) is Some,
                same_live(log_index(new_log@)->Some_0, new_index@),
                forall|k: i64| #[trigger]
                    pos_of(new_index@, k) is Some ==> pos_of(new_index@, k)->Some_0.offset
                        + pos_of(new_index@, k)->Some_0.size <= new_log@.len(),
                new_log@.len() <= u64::MAX,
                new_log@.len() == live_total(self.keys@.subrange(0, i as int), index),
                live_total(self.keys@.subrange(0, i as int), new_index@) == new_log@.len(),
                new_log@ == set_records(live, view),
                live.no_duplicates(),
                live.to_set() == view.dom().intersect(new_index@.dom()),
            decreases n - i,
        {
            let key = self.keys[i];
            proof {
                assert(self.keys@.subrange(0, i + 1).to_set() =~= self.keys@.subrange(
                    0,
                    i as int,
                ).to_set().insert(key)) by {
                    assert(self.keys@.subrange(0, i + 1) =~= self.keys@.subrange(0, i as int).push(
                        key,
                    ));
                    self.keys@.subrange(0, i as int).lemma_push_to_set_commute(key);
                }
                assert(!new_index@.dom().contains(key)) by {
                    if self.keys@.subrange(0, i as int).to_set().contains(key) {
                        let j = choose|j: int|
                            0 <= j < i && #[trigger] self.keys@.subrange(0, i as int)[j] == key;
                        assert(self.keys@[j] == self.keys@[i as int]);
                    }
                }
            }
            let entry: Option<ValuePos> = match self.index.get(&key) {
                Some(e) => *e,
                None => None,
            };
            proof {
                assert(pos_of(index, key) == entry);
            }
            let ghost old_new_log = new_log@;
            let ghost old_new_index = new_index@;
            let ghost parsed = log_index(new_log@)->Some_0;
            let ghost sub = self.keys@.subrange(0, i as int);
            proof {
                let sub1 = self.keys@.subrange(0, i + 1);
                assert(sub1.drop_last() =~= sub);
                assert(sub1.last() == key);
                assert(!sub.contains(key)) by {
                    if sub.contains(key) {
                        assert(sub.to_set().contains(key));
                    }
                }
                lemma_live_total_prefix(self.keys@, index, i + 1);
                assert(live_total(sub1, index) == new_log@.len() + live_record_len(index, key));
            }
            match entry {
                Some(pos) => {
                    let log_len = self.log.len();
                    assert(pos.offset + pos.size <= log_len);
                    let bytes = slice_subrange(
                        self.log.as_slice(),
                        pos.offset as usize,
                        (pos.offset + pos.size) as usize,
                    );
                    let cur = new_log.len();
                    proof {
                        assert(cur + SET_HEADER_LEN + pos.size <= log.len());
                    }
                    write_set_record(&mut new_log, key, bytes);
                    let new_pos = ValuePos { offset: cur as u64 + SET_HEADER_LEN, size: pos.size };
                    new_index.insert(key, Some(new_pos));
                    proof {
                        lemma_live_total_other(sub, old_new_index, key, Some(new_pos));
                        assert(self.keys@.subrange(0, i + 1).drop_last() == sub);
                        assert(view.contains_key(key));
                        assert(view[key] == bytes@);
                        lemma_parse_append_set(old_new_log, key, bytes@);
                        lemma_values_append(old_new_log, set_record(key, bytes@), old_new_index);
                        lemma_key_round_trip(key);
                        lemma_len_round_trip(pos.size);
                        assert(new_log@.subrange(
                            new_pos.offset as int,
                            new_pos.offset + new_pos.size,
                        ) =~= bytes@);
                        assert forall|k: i64| #[trigger]
                            values_of(new_log@, new_index@).contains_key(k) implies values_of(
                            new_log@,
                            new_index@,
                        )[k] == view[k] by {
                            if k != key {
                                assert(new_index@[k] == old_new_index[k]);
                                assert(values_of(new_log@, old_new_index).contains_key(k));
                                assert(values_of(old_new_log, old_new_index).contains_key(k));
                                assert(values_of(new_log@, new_index@)[k] == values_of(
                                    new_log@,
                                    old_new_index,
                                )[k]);
                            }
                        }
                        assert forall|k: i64|
                            #![trigger values_of(new_log@, new_index@).contains_key(k)]
                            #![trigger view.restrict(new_index@.dom()).contains_key(k)]
                            values_of(new_log@, new_index@).contains_key(k) <==> view.restrict(
                                new_index@.dom(),
                            ).contains_key(k) by {
                            if k != key {
                                assert(values_of(old_new_log, old_new_index).contains_key(k)
                                    <==> view.restrict(old_new_index.dom()).contains_key(k));
                            }
                        }
                        assert(values_of(new_log@, new_index@) =~= view.restrict(
                            new_index@.dom(),
                        ));
                        assert forall|k: i64|
                            #![trigger pos_of(parsed.insert(key, Some(new_pos)), k)]
                            #![trigger pos_of(new_index@, k)]
                            pos_of(parsed.insert(key, Some(new_pos)), k) == pos_of(
                                new_index@,
                                k,
                            ) by {
                            if k != key {
                                assert(pos_of(parsed, k) == pos_of(old_new_index, k));
                            }
                        }
                        assert forall|k: i64| #[trigger]
                            pos_of(new_index@, k) is Some implies pos_of(new_index@, k)->Some_0.offset
                            + pos_of(new_index@, k)->Some_0.size <= new_log@.len() by {
                            if k != key {
                                assert(pos_of(new_index@, k) == pos_of(old_new_index, k));
                            }
                        }
                        let ghost old_live = live;
                        live = live.push(key);
                        old_live.lemma_push_to_set_commute(key);
                        assert(!old_live.contains(key)) by {
                            if old_live.contains(key) {
                                assert(old_live.to_set().contains(key));
                            }
                        }
                        assert(live.to_set() =~= view.dom().intersect(new_index@.dom()));
                        assert(live.drop_last() =~= old_live);
                    }
                },
                None => {
                    new_index.insert(key, None);
                    proof {
                        lemma_live_total_other(sub, old_new_index, key, None);
                        assert(self.keys@.subrange(0, i + 1).drop_last() == sub);
                        assert(!view.contains_key(key));
                        assert forall|k: i64|
                            #![trigger values_of(new_log@, new_index@).contains_key(k)]
                            #![trigger view.restrict(new_index@.dom()).contains_key(k)]
                            values_of(new_log@, new_index@).contains_key(k) <==> view.restrict(
                                new_index@.dom(),
                            ).contains_key(k) by {
                            if k != key {
                                assert(values_of(old_new_log, old_new_index).contains_key(k)
                                    <==> view.restrict(old_new_index.dom()).contains_key(k));
                            }
                        }
                        assert forall|k: i64| #[trigger]
                            values_of(new_log@, new_index@).contains_key(k) implies values_of(
                            new_log@,
                            new_index@,
                        )[k] == view[k] by {
                            assert(k != key);
                            assert(new_index@[k] == old_new_index[k]);
                            assert(values_of(old_new_log, old_new_index).contains_key(k));
                            assert(values_of(new_log@, new_index@)[k] == values_of(
                                old_new_log,
                                old_new_index,
                            )[k]);
                        }
                        assert forall|k: i64| #[trigger]
                            pos_of(new_index@, k) is Some implies pos_of(new_index@, k)->Some_0.offset
                            + pos_of(new_index@, k)->Some_0.size <= new_log@.len() by {
                            assert(pos_of(new_index@, k) == pos_of(old_new_index, k));
                        }
                        assert(values_of(new_log@, new_index@) =~= view.restrict(
                            new_index@.dom(),
                        ));
                        assert forall|k: i64|
                            #![trigger pos_of(parsed, k)]
                            #![trigger pos_of(new_index@, k)]
                            pos_of(parsed, k) == pos_of(new_index@, k) by {
                            if k != key {
                                assert(pos_of(parsed, k) == pos_of(old_new_index, k));
                            }
                        }
                        assert(live.to_set() =~= view.dom().intersect(new_index@.dom()));
                    }
                },
            }
            i = i + 1;
        }
        proof {
            assert(self.keys@.subrange(0, n as int) =~= self.keys@);
            assert(view.dom().subset_of(index.dom()));
            assert(view.restrict(new_index@.dom()) =~= view);
            assert(live.to_set() =~= view.dom());
            assert(is_compacted_log(new_log@, view));
        }
        self.file_size = new_log.len() as u64;
        self.log = new_log;
        self.index = new_index;
        proof {
            assert(live_total(self.keys@, index) <= log.len());
        }
        self.compactions = if self.compactions == u64::MAX {
            0
        } else {
            self.compactions + 1
        };
    }

    /// Sets `key` to `value` and returns its previous value. The set record
    /// is appended to the log; a log that then exceeds the threshold is
    /// compacted.
    pub fn set(&mut self, key: i64, value: &str) -> (r: Result<Option<String>, KvError>)
        requires
            old(self).wf(),
            old(self).log().len() + SET_HEADER_LEN + encode_utf8(value@).len() <= u64::MAX,
        ensures
            final(self).wf(),
            final(self).is_closed_spec() == old(self).is_closed_spec(),
            final(self).threshold() == old(self).threshold(),
            within_budget(final(self).cached()),
            r is Ok <==> !old(self).is_closed_spec(),
            match r {
                Ok(prev) => {
                    &&& text_of(prev) == lookup(old(self)@, key)
                    &&& final(self)@ == old(self)@.insert(key, encode_utf8(value@))
                    &&& final(self).cached().last() == (key, value@)
                    &&& entry_size(value@) + KEY_WIDTH > MAX_CACHE_SIZE ==> final(self).cached()
                        == seq![(key, value@)]
                    &&& old(self).log().len() + SET_HEADER_LEN + encode_utf8(value@).len()
                        > old(self).threshold() ==> final(self).compaction_count() != old(self).compaction_count()
                    &&& final(self).compaction_count() == old(self).compaction_count()
                        ==> final(self).log() == old(self).log() + set_record(
                        key,
                        encode_utf8(value@),
                    )
                    &&& final(self).compaction_count() != old(self).compaction_count() ==> {
                        &&& old(self).log().len() + SET_HEADER_LEN + encode_utf8(value@).len()
                            > old(self).threshold()
                        &&& is_compacted_log(final(self).log(), final(self)@)
                    }
                },
                Err(e) => {
                    &&& e is DbClosed
                    &&& final(self)@ == old(self)@
                    &&& final(self).log() == old(self).log()
                    &&& final(self).compaction_count() == old(self).compaction_count()
                    &&& final(self).cached() == old(self).cached()
                },
            },
    {
        if self.closed {
            proof {
                self.cache.lemma_budget_or_alone();
            }
            return Err(KvError::DbClosed);
        }
        let old_value = match self.get(key) {
            Ok(v) => v,
            Err(e) => {
                return Err(e);
            },
        };
        let bytes = value.as_bytes();
        let ghost log0 = self.log@;
        let ghost index0 = self.index@;
        let ghost view0 = self@;
        let ghost keys0 = self.keys@;
        let ghost parsed0 = log_index(log0)->Some_0;
        let offset = self.file_size;
        write_set_record(&mut self.log, key, bytes);
        let pos = ValuePos { offset: offset + SET_HEADER_LEN, size: bytes.len() as u64 };
        let new_size = offset + SET_HEADER_LEN + bytes.len() as u64;
        self.file_size = new_size;
        proof {
            lemma_key_round_trip(key);
            lemma_len_round_trip(pos.size);
            assert(live_record_len(index0.insert(key, Some(pos)), key) == self.log@.len()
                - log0.len());
        }
        if !self.index.contains_key(&key) {
            self.keys.push(key);
            proof {
                keys0.lemma_push_to_set_commute(key);
                assert(!keys0.contains(key)) by {
                    if keys0.contains(key) {
                        assert(keys0.to_set().contains(key));
                    }
                }
                lemma_live_total_other(keys0, index0, key, Some(pos));
                assert(self.keys@.drop_last() == keys0);
            }
        } else {
            proof {
                assert(keys0.to_set().contains(key));
                lemma_live_total_insert(keys0, index0, key, Some(pos));
            }
        }
        self.index.insert(key, Some(pos));
        proof {
            assert(self.keys@.to_set() =~= self.index@.dom());
            lemma_parse_append_set(log0, key, bytes@);
            lemma_values_append(log0, set_record(key, bytes@), index0);
            lemma_key_round_trip(key);
            lemma_len_round_trip(pos.size);
            assert(self.log@.subrange(pos.offset as int, pos.offset + pos.size) =~= bytes@);
            assert forall|k: i64| #[trigger]
                values_of(self.log@, self.index@).contains_key(k) && k != key implies values_of(
                self.log@,
                self.index@,
            )[k] == view0[k] by {
                assert(self.index@[k] == index0[k]);
                assert(values_of(self.log@, index0).contains_key(k));
            }
            assert(self@ =~= view0.insert(key, bytes@));
            assert forall|k: i64|
                #![trigger pos_of(parsed0.insert(key, Some(pos)), k)]
                #![trigger pos_of(self.index@, k)]
                pos_of(parsed0.insert(key, Some(pos)), k) == pos_of(self.index@, k) by {
                if k != key {
                    assert(pos_of(parsed0, k) == pos_of(index0, k));
                }
            }
            assert forall|k: i64| #[trigger]
                pos_of(self.index@, k) is Some implies pos_of(self.index@, k)->Some_0.offset
                + pos_of(self.index@, k)->Some_0.size <= self.log@.len() by {
                if k != key {
                    assert(pos_of(self.index@, k) == pos_of(index0, k));
                }
            }
            vstd::utf8::encode_utf8_valid_utf8(value@);
            vstd::utf8::encode_utf8_decode_utf8(value@);
        }
        let ghost s = self.cache.entries();
        self.cache.insert(key, String::from_str(value));
        proof {
            let t = self.cache.entries();
            let view = self@;
            assert forall|i: int| 0 <= i < t.len() implies view.contains_key(
                (#[trigger] t[i]).0,
            ) && t[i].1 == utf8_text(view[t[i].0]) by {
                if t[i] != (key, value@) {
                    let j = choose|j: int| 0 <= j < s.len() && s[j] == t[i];
                    assert(view0.contains_key(s[j].0));
                }
            }
        }
        if new_size > self.config.gc_threshold {
            self.garbage_collect();
        }
        proof {
            self.cache.lemma_budget_or_alone();
        }
        Ok(old_value)
    }

    /// Removes `key` and returns its previous value. Only a key that holds
    /// a value gets a remove record in the log; a log that then exceeds the
    /// threshold is compacted.
    pub fn remove(&mut self, key: i64) -> (r: Result<Option<String>, KvError>)
        requires
            old(self).wf(),
            old(self).log().len() + REMOVE_RECORD_LEN <= u64::MAX,
        ensures
            final(self).wf(),
            final(self).is_closed_spec() == old(self).is_closed_spec(),
            final(self).threshold() == old(self).threshold(),
            within_budget(final(self).cached()),
            r is Ok <==> !old(self).is_closed_spec(),
            match r {
                Ok(prev) => {
                    &&& text_of(prev) == lookup(old(self)@, key)
                    &&& final(self)@ == old(self)@.remove(key)
                    &&& forall|i: int|
                        0 <= i < final(self).cached().len() ==> (#[trigger] final(self).cached()[i]).0 != key
                    &&& old(self)@.contains_key(key) && old(self).log().len() + REMOVE_RECORD_LEN
                        > old(self).threshold() ==> final(self).compaction_count() != old(self).compaction_count()
                    &&& !old(self)@.contains_key(key) ==> final(self).log() == old(self).log()
                        && final(self).compaction_count() == old(self).compaction_count()
                    &&& old(self)@.contains_key(key) && final(self).compaction_count() == old(self).compaction_count() ==> final(self).log() == old(self).log()
                        + remove_record(key)
                    &&& final(self).compaction_count() != old(self).compaction_count() ==> {
                        &&& old(self).log().len() + REMOVE_RECORD_LEN > old(self).threshold()
                        &&& is_compacted_log(final(self).log(), final(self)@)
                    }
                },
                Err(e) => {
                    &&& e is DbClosed
                    &&& final(self)@ == old(self)@
                    &&& final(self).log() == old(self).log()
                    &&& final(self).compaction_count() == old(self).compaction_count()
                    &&& final(self).cached() == old(self).cached()
                },
            },
    {
        if self.closed {
            proof {
                self.cache.lemma_budget_or_alone();
            }
            return Err(KvError::DbClosed);
        }
        let old_value = match self.get(key) {
            Ok(v) => v,
            Err(e) => {
                return Err(e);
            },
        };
        match old_value {
            Some(val) => {
                let ghost log0 = self.log@;
                let ghost index0 = self.index@;
                let ghost view0 = self@;
                let ghost parsed0 = log_index(log0)->Some_0;
                write_remove_record(&mut self.log, key);
                self.file_size = self.file_size + REMOVE_RECORD_LEN;
                proof {
                    assert(index0.contains_key(key));
                    assert(self.keys@.to_set().contains(key));
                    lemma_live_total_insert(self.keys@, index0, key, None);
                }
                self.index.insert(key, None);
                proof {
                    assert(self.keys@.to_set() =~= self.index@.dom());
                    lemma_parse_append_remove(log0, key);
                    lemma_key_round_trip(key);
                    lemma_values_append(log0, remove_record(key), index0);
                    assert forall|k: i64| #[trigger]
                        values_of(self.log@, self.index@).contains_key(k) implies values_of(
                        self.log@,
                        self.index@,
                    )[k] == view0[k] by {
                        assert(self.index@[k] == index0[k]);
                        assert(values_of(self.log@, index0).contains_key(k));
                    }
                    assert(self@ =~= view0.remove(key));
                    assert forall|k: i64|
                        #![trigger pos_of(parsed0.insert(key, None), k)]
                        #![trigger pos_of(self.index@, k)]
                        pos_of(parsed0.insert(key, None), k) == pos_of(self.index@, k) by {
                        if k != key {
                            assert(pos_of(parsed0, k) == pos_of(index0, k));
                        }
                    }
                    assert forall|k: i64| #[trigger]
                        pos_of(self.index@, k) is Some implies pos_of(self.index@, k)->Some_0.offset
                        + pos_of(self.index@, k)->Some_0.size <= self.log@.len() by {
                        assert(pos_of(self.index@, k) == pos_of(index0, k));
                    }
                }
                let ghost s = self.cache.entries();
                self.cache.remove(key);
                proof {
                    let t = self.cache.entries();
                    let view = self@;
                    assert forall|i: int| 0 <= i < t.len() implies view.contains_key(
                        (#[trigger] t[i]).0,
                    ) && t[i].1 == utf8_text(view[t[i].0]) by {
                        let j = choose|j: int| 0 <= j < s.len() && s[j] == t[i];
                        assert(view0.contains_key(s[j].0));
                    }
                }
                if self.file_size > self.config.gc_threshold {
                    self.garbage_collect();
                }
                proof {
                    self.cache.lemma_budget_or_alone();
                }
                Ok(Some(val))
            },
            None => {
                proof {
                    assert(self@ =~= self@.remove(key));
                    self.cache.lemma_budget_or_alone();
                }
                Ok(None)
            },
        }
    }
}

/// Decoding the bytes of a text gives the text back.
pub proof fn lemma_text_round_trip(v: Seq<char>)
    ensures
        utf8_text(encode_utf8(v)) == v,
{
    vstd::utf8::encode_utf8_valid_utf8(v);
    vstd::utf8::encode_utf8_decode_utf8(v);
}

/// Reopening a store over its log gives back the same contents: replaying
/// the log yields the value of every key that the store holds, and no other
/// key, whether or not the log was compacted.
pub proof fn lemma_reopen(db: KvDb)
    requires
        db.wf(),
    ensures
        log_contents(db.log()) == Some(db@),
{
    let parsed = log_index(db.log@)->Some_0;
    assert forall|k: i64| #[trigger] values_of(db.log@, parsed).contains_key(k) <==> values_of(
        db.log@,
        db.index@,
    ).contains_key(k) by {
        assert(pos_of(parsed, k) == pos_of(db.index@, k));
    }
    assert forall|k: i64| #[trigger]
        values_of(db.log@, parsed).contains_key(k) implies values_of(db.log@, parsed)[k]
        == values_of(db.log@, db.index@)[k] by {
        assert(pos_of(parsed, k) == pos_of(db.index@, k));
    }
    assert(values_of(db.log@, parsed) =~= values_of(db.log@, db.index@));
}

/// Every cached value is what reading the log would give for its key, so
/// a get answers alike on a cache hit and on a miss.
pub proof fn lemma_cache_transparent(db: KvDb)
    requires
        db.wf(),
    ensures
        forall|i: int|
            0 <= i < db.cached().len() ==> lookup(db@, (#[trigger] db.cached()[i]).0) == Some(
                db.cached()[i].1,
            ),
{
}

/// The cache of a store holds at most its byte budget whenever no cached
/// value on its own exceeds the budget.
pub proof fn lemma_store_cache_budget(db: KvDb)
    requires
        db.wf(),
        forall|i: int|
            0 <= i < db.cached().len() ==> entry_size((#[trigger] db.cached()[i]).1)
                <= MAX_CACHE_SIZE,
    ensures
        total_size(db.cached()) <= MAX_CACHE_SIZE,
{
    assert(db.cached() == db.cache.entries());
    db.cache.lemma_within_budget();
}

} // verus!
