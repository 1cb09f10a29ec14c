//! The time-aware key-value store and the static server configuration.
//!
//! The store maps byte-string keys to entries that carry the written
//! value, the timestamp it was recorded at and an optional time-to-live.
//! Expiry is never evaluated here: a logically expired entry is still
//! physically present and is returned verbatim by `get`; the evaluator
//! alone interprets timestamps. Writing a key replaces any prior entry.

use vstd::prelude::*;

use crate::resp::vec_u8_eq;

verus! {

/// A stored value: the payload, the timestamp (in milliseconds) at which
/// it was recorded, and its optional time-to-live in milliseconds.
pub struct ExpiringValue {
    pub value: Vec<u8>,
    pub ts: u64,
    pub expiry: Option<u64>,
}

/// The mathematical shape of a store entry.
pub struct EntryView {
    pub value: Seq<u8>,
    pub ts: u64,
    pub expiry: Option<u64>,
}

impl DeepView for ExpiringValue {
    type V = EntryView;

    open spec fn deep_view(&self) -> EntryView {
        EntryView { value: self.value@, ts: self.ts, expiry: self.expiry }
    }
}

/// The immutable server configuration: two byte-string settings fixed at
/// process start and only ever read back through `CONFIG GET`.
#[derive(Clone)]
pub struct Config {
    pub dir: Vec<u8>,
    pub db_file_name: Vec<u8>,
}

/// The mathematical shape of the configuration.
pub struct ConfigView {
    pub dir: Seq<u8>,
    pub db_file_name: Seq<u8>,
}

impl DeepView for Config {
    type V = ConfigView;

    open spec fn deep_view(&self) -> ConfigView {
        ConfigView { dir: self.dir@, db_file_name: self.db_file_name@ }
    }
}

/// The key-value store, abstractly a map from key bytes to entries.
///
/// Entries are held as a journal of writes; the newest write of a key is
/// the binding the map view exposes. Capacity is never reclaimed.
pub struct RedisStore {
    entries: Vec<(Vec<u8>, ExpiringValue)>,
}

/// The map described by a journal of writes: later writes override
/// earlier ones.
spec fn entries_map(s: Seq<(Vec<u8>, ExpiringValue)>) -> Map<Seq<u8>, EntryView>
    decreases s.len(),
{
    if s.len() == 0 {
        Map::empty()
    } else {
        entries_map(s.drop_last()).insert(s.last().0@, s.last().1.deep_view())
    }
}

impl View for RedisStore {
    type V = Map<Seq<u8>, EntryView>;

    closed spec fn view(&self) -> Map<Seq<u8>, EntryView> {
        entries_map(self.entries@)
    }
}

/// A key no write mentions is absent from the described map.
proof fn lemma_entries_map_absent(s: Seq<(Vec<u8>, ExpiringValue)>, k: Seq<u8>)
    requires
        forall|j: int| 0 <= j < s.len() ==> s[j].0@ != k,
    ensures
        !entries_map(s).contains_key(k),
    decreases s.len(),
{
    if s.len() > 0 {
        lemma_entries_map_absent(s.drop_last(), k);
    }
}

/// The described map binds a key to its newest write.
proof fn lemma_entries_map_get(s: Seq<(Vec<u8>, ExpiringValue)>, k: Seq<u8>, i: int)
    requires
        0 <= i < s.len(),
        s[i].0@ == k,
        forall|j: int| i < j < s.len() ==> s[j].0@ != k,
    ensures
        entries_map(s).contains_key(k),
        entries_map(s)[k] == s[i].1.deep_view(),
    decreases s.len(),
{
    if i < s.len() - 1 {
        lemma_entries_map_get(s.drop_last(), k, i);
    }
}

impl RedisStore {
    /// An empty store.
    pub fn new() -> (s: RedisStore)
        ensures
            s@ == Map::<Seq<u8>, EntryView>::empty(),
    {
        RedisStore { entries: Vec::new() }
    }

    /// Writes `key`, replacing any prior entry for it atomically from the
    /// point of view of the map the store describes.
    pub fn insert(&mut self, key: Vec<u8>, value: ExpiringValue)
        ensures
            final(self)@ == old(self)@.insert(key@, value.deep_view()),
    {
        let ghost prev = self.entries@;
        self.entries.push((key, value));
        proof {
            assert(self.entries@.drop_last() =~= prev);
        }
    }

    /// Looks a key up; a present entry is returned verbatim, expired or
    /// not.
    pub fn get(&self, key: &Vec<u8>) -> (r: Option<&ExpiringValue>)
        ensures
            match r {
                Some(e) => self@.contains_key(key@) && e.deep_view() == self@[key@],
                None => !self@.contains_key(key@),
            },
    {
        let mut i: usize = self.entries.len();
        loop
            invariant
                0 <= i <= self.entries@.len(),
                forall|j: int| i <= j < self.entries@.len() ==> self.entries@[j].0@ != key@,
            decreases i,
        {
            if i == 0 {
                proof {
                    lemma_entries_map_absent(self.entries@, key@);
                }
                return None;
            }
            i = i - 1;
            let pair = &self.entries[i];
            if vec_u8_eq(&pair.0, key) {
                proof {
                    lemma_entries_map_get(self.entries@, key@, i as int);
                }
                return Some(&pair.1);
            }
        }
    }
}

} // verus!
