//! The in-memory store: decoded entry bytes keyed by the 32-bit name hash.
//!
//! Two distinct names may hash to the same key; the store then keeps only
//! the most recently written value. That is the format's documented
//! collision policy, not a defect, so the store is modelled as a map from
//! key to bytes and nothing else.

use vstd::prelude::*;
use vstd::string::StringSliceAdditionalSpecFns;
use crate::hash::{entry_hash, name_hash};

verus! {

/// One stored entry: the key its name hashed to, and the decoded bytes.
#[derive(Clone, Debug)]
pub(crate) struct Entry {
    pub key: u32,
    pub data: Vec<u8>,
}

/// The map an entry sequence denotes, later entries overwriting earlier
/// ones with the same key.
pub(crate) open spec fn entries_map(s: Seq<Entry>) -> Map<u32, Seq<u8>>
    decreases s.len(),
{
    if s.len() == 0 {
        Map::empty()
    } else {
        entries_map(s.drop_last()).insert(s.last().key, s.last().data@)
    }
}

/// Keys strictly ascending: each key occurs at most once, and encoding can
/// walk the entries in deterministic order.
pub(crate) open spec fn keys_sorted(s: Seq<Entry>) -> bool {
    forall|i: int, j: int| 0 <= i < j < s.len() ==> s[i].key < s[j].key
}

/// A keyed collection of decoded archive entries.
///
/// Its abstract value is a map from 32-bit key to byte sequence; all
/// name-taking operations hash the name first.
#[derive(Clone, Debug)]
pub struct Archive {
    pub(crate) entries: Vec<Entry>,
}

impl View for Archive {
    type V = Map<u32, Seq<u8>>;

    closed spec fn view(&self) -> Map<u32, Seq<u8>> {
        entries_map(self.entries@)
    }
}

pub(crate) proof fn lemma_view_def(a: &Archive)
    ensures
        a@ == entries_map(a.entries@),
        a.well_formed() == keys_sorted(a.entries@),
{
}

pub(crate) proof fn lemma_entries_map_dom(s: Seq<Entry>, k: u32)
    ensures
        entries_map(s).contains_key(k) <==> exists|i: int| 0 <= i < s.len() && s[i].key == k,
    decreases s.len(),
{
    if s.len() > 0 {
        lemma_entries_map_dom(s.drop_last(), k);
        if s.last().key == k {
            assert(s[s.len() - 1].key == k);
        } else {
            if entries_map(s.drop_last()).contains_key(k) {
                let i = choose|i: int| 0 <= i < s.drop_last().len() && s.drop_last()[i].key == k;
                assert(s[i].key == k);
            }
            if exists|i: int| 0 <= i < s.len() && s[i].key == k {
                let i = choose|i: int| 0 <= i < s.len() && s[i].key == k;
                assert(s.drop_last()[i].key == k);
            }
        }
    }
}

pub(crate) proof fn lemma_entries_map_index(s: Seq<Entry>, i: int)
    requires
        keys_sorted(s),
        0 <= i < s.len(),
    ensures
        entries_map(s).contains_key(s[i].key),
        entries_map(s)[s[i].key] == s[i].data@,
    decreases s.len(),
{
    if i < s.len() - 1 {
        lemma_entries_map_index(s.drop_last(), i);
        assert(s.drop_last()[i] == s[i]);
        assert(s[i].key < s.last().key);
    }
}

pub(crate) proof fn lemma_entries_map_insert(s: Seq<Entry>, p: int, e: Entry)
    requires
        keys_sorted(s),
        0 <= p <= s.len(),
        forall|i: int| 0 <= i < p ==> s[i].key < e.key,
        forall|i: int| p <= i < s.len() ==> e.key < s[i].key,
    ensures
        keys_sorted(s.insert(p, e)),
        entries_map(s.insert(p, e)) == entries_map(s).insert(e.key, e.data@),
    decreases s.len(),
{
    let t = s.insert(p, e);
    assert forall|i: int, j: int| 0 <= i < j < t.len() implies t[i].key < t[j].key by {
        if i < p {
            assert(t[i] == s[i]);
        } else if i == p {
            assert(t[i] == e);
        } else {
            assert(t[i] == s[i - 1]);
        }
        if j < p {
            assert(t[j] == s[j]);
        } else if j == p {
            assert(t[j] == e);
        } else {
            assert(t[j] == s[j - 1]);
        }
    }
    if p == s.len() {
        assert(t.drop_last() =~= s);
        assert(t.last() == e);
    } else {
        lemma_entries_map_insert(s.drop_last(), p, e);
        assert(t.drop_last() =~= s.drop_last().insert(p, e));
        assert(t.last() == s.last());
        assert(e.key < s.last().key);
        assert(entries_map(t) =~= entries_map(s).insert(e.key, e.data@));
    }
}

pub(crate) proof fn lemma_entries_map_update(s: Seq<Entry>, p: int, e: Entry)
    requires
        keys_sorted(s),
        0 <= p < s.len(),
        s[p].key == e.key,
    ensures
        keys_sorted(s.update(p, e)),
        entries_map(s.update(p, e)) == entries_map(s).insert(e.key, e.data@),
    decreases s.len(),
{
    let t = s.update(p, e);
    assert forall|i: int, j: int| 0 <= i < j < t.len() implies t[i].key < t[j].key by {
        assert(s[i].key < s[j].key);
    }
    if p == s.len() - 1 {
        assert(t.drop_last() =~= s.drop_last());
        assert(t.last() == e);
        assert(entries_map(t) =~= entries_map(s).insert(e.key, e.data@));
    } else {
        lemma_entries_map_update(s.drop_last(), p, e);
        assert(t.drop_last() =~= s.drop_last().update(p, e));
        assert(t.last() == s.last());
        assert(e.key < s.last().key);
        assert(entries_map(t) =~= entries_map(s).insert(e.key, e.data@));
    }
}

pub(crate) proof fn lemma_entries_map_remove(s: Seq<Entry>, p: int)
    requires
        keys_sorted(s),
        0 <= p < s.len(),
    ensures
        keys_sorted(s.remove(p)),
        entries_map(s.remove(p)) == entries_map(s).remove(s[p].key),
    decreases s.len(),
{
    let t = s.remove(p);
    assert forall|i: int, j: int| 0 <= i < j < t.len() implies t[i].key < t[j].key by {
        if i < p {
            assert(t[i] == s[i]);
        } else {
            assert(t[i] == s[i + 1]);
        }
        if j < p {
            assert(t[j] == s[j]);
        } else {
            assert(t[j] == s[j + 1]);
        }
    }
    if p == s.len() - 1 {
        assert(t =~= s.drop_last());
        lemma_entries_map_dom(s.drop_last(), s[p].key);
        assert(forall|i: int|
            0 <= i < s.drop_last().len() ==> s.drop_last()[i].key < s[p].key);
        assert(entries_map(t) =~= entries_map(s).remove(s[p].key));
    } else {
        lemma_entries_map_remove(s.drop_last(), p);
        assert(t.drop_last() =~= s.drop_last().remove(p));
        assert(t.last() == s.last());
        assert(s[p].key < s.last().key);
        assert(entries_map(t) =~= entries_map(s).remove(s[p].key));
    }
}

pub(crate) proof fn lemma_entries_map_len(s: Seq<Entry>)
    requires
        keys_sorted(s),
    ensures
        entries_map(s).dom().finite(),
        entries_map(s).dom().len() == s.len(),
    decreases s.len(),
{
    if s.len() == 0 {
        assert(entries_map(s).dom() =~= Set::<u32>::empty());
    } else {
        lemma_entries_map_len(s.drop_last());
        lemma_entries_map_dom(s.drop_last(), s.last().key);
        assert(forall|i: int|
            0 <= i < s.drop_last().len() ==> s.drop_last()[i].key < s.last().key);
        assert(!entries_map(s.drop_last()).contains_key(s.last().key));
        assert(entries_map(s).dom() =~= entries_map(s.drop_last()).dom().insert(s.last().key));
    }
}

impl Archive {
    /// Keys strictly ascending in the backing vector; every operation
    /// preserves this, and every constructor establishes it.
    pub closed spec fn well_formed(&self) -> bool {
        keys_sorted(self.entries@)
    }

    /// Creates a store with no entries.
    pub fn new() -> (r: Archive)
        ensures
            r.well_formed(),
            r@ == Map::<u32, Seq<u8>>::empty(),
    {
        Archive { entries: Vec::new() }
    }

    /// The index holding `key`, if any, by binary search over the sorted
    /// keys.
    fn find(&self, key: u32) -> (r: Option<usize>)
        requires
            self.well_formed(),
        ensures
            match r {
                Some(i) => i < self.entries@.len() && self.entries@[i as int].key == key,
                None => forall|i: int| 0 <= i < self.entries@.len() ==> self.entries@[i].key != key,
            },
    {
        let p: usize = self.find_position(key);
        if p < self.entries.len() && self.entries[p].key == key {
            Some(p)
        } else {
            proof {
                assert forall|i: int| 0 <= i < self.entries@.len() implies self.entries@[i].key
                    != key by {
                    if i > p {
                        assert(self.entries@[p as int].key < self.entries@[i].key);
                    }
                }
            }
            None
        }
    }

    /// The first index whose key is not below `key`: the place where `key`
    /// sits if present, and where it belongs if absent. Binary search over
    /// the sorted keys.
    fn find_position(&self, key: u32) -> (p: usize)
        requires
            self.well_formed(),
        ensures
            p <= self.entries@.len(),
            forall|i: int| 0 <= i < p ==> self.entries@[i].key < key,
            forall|i: int| p <= i < self.entries@.len() ==> key <= self.entries@[i].key,
    {
        let mut lo: usize = 0;
        let mut hi: usize = self.entries.len();
        while lo < hi
            invariant
                lo <= hi <= self.entries@.len(),
                self.well_formed(),
                forall|i: int| 0 <= i < lo ==> self.entries@[i].key < key,
                forall|i: int| hi <= i < self.entries@.len() ==> key <= self.entries@[i].key,
            decreases hi - lo,
        {
            let mid: usize = lo + (hi - lo) / 2;
            if self.entries[mid].key < key {
                proof {
                    assert forall|i: int| 0 <= i < mid + 1 implies self.entries@[i].key < key by {
                        if i < mid {
                            assert(self.entries@[i].key < self.entries@[mid as int].key);
                        }
                    }
                }
                lo = mid + 1;
            } else {
                proof {
                    assert forall|i: int|
                        mid <= i < self.entries@.len() implies key <= self.entries@[i].key by {
                        if i > mid {
                            assert(self.entries@[mid as int].key < self.entries@[i].key);
                        }
                    }
                }
                hi = mid;
            }
        }
        lo
    }

    /// Returns `true` if the store holds an entry under this name's key.
    pub fn contains_key(&self, key: &str) -> (r: bool)
        requires
            self.well_formed(),
        ensures
            r == self@.contains_key(name_hash(key.spec_bytes())),
    {
        let hash: u32 = entry_hash(key);
        let found: Option<usize> = self.find(hash);
        proof {
            lemma_entries_map_dom(self.entries@, hash);
        }
        found.is_some()
    }

    /// Gets a reference to an entry's bytes, or `None` if no entry is
    /// stored under this name's key.
    pub fn get(&self, key: &str) -> (r: Option<&Vec<u8>>)
        requires
            self.well_formed(),
        ensures
            match r {
                Some(v) => self@.contains_key(name_hash(key.spec_bytes())) && v@ == self@[
                    name_hash(key.spec_bytes())
                ],
                None => !self@.contains_key(name_hash(key.spec_bytes())),
            },
    {
        let hash: u32 = entry_hash(key);
        proof {
            lemma_entries_map_dom(self.entries@, hash);
        }
        match self.find(hash) {
            Some(i) => {
                proof {
                    lemma_entries_map_index(self.entries@, i as int);
                }
                Some(&self.entries[i].data)
            },
            None => None,
        }
    }

    /// Gets a mutable reference to an entry's bytes, or `None` if no
    /// entry is stored under this name's key. The store afterwards holds,
    /// under that key, whatever the caller leaves behind the reference.
    pub fn get_mut(&mut self, key: &str) -> (r: Option<&mut Vec<u8>>)
        requires
            old(self).well_formed(),
        ensures
            final(self).well_formed(),
            match r {
                Some(v) => {
                    &&& old(self)@.contains_key(name_hash(key.spec_bytes()))
                    &&& (*v)@ == old(self)@[name_hash(key.spec_bytes())]
                    &&& final(self)@ == old(self)@.insert(
                        name_hash(key.spec_bytes()),
                        (*final(v))@,
                    )
                },
                None => {
                    &&& !old(self)@.contains_key(name_hash(key.spec_bytes()))
                    &&& final(self)@ == old(self)@
                },
            },
    {
        let hash: u32 = entry_hash(key);
        proof {
            lemma_entries_map_dom(self.entries@, hash);
        }
        match self.find(hash) {
            Some(i) => {
                proof {
                    lemma_entries_map_index(self.entries@, i as int);
                    assert forall|d: Vec<u8>|
                        {
                            &&& keys_sorted(
                                self.entries@.update(i as int, Entry { key: hash, data: d }),
                            )
                            &&& entries_map(
                                self.entries@.update(i as int, Entry { key: hash, data: d }),
                            ) == entries_map(self.entries@).insert(hash, d@)
                        } by {
                        lemma_entries_map_update(
                            self.entries@,
                            i as int,
                            Entry { key: hash, data: d },
                        );
                    }
                }
                let entry_ref: &mut Entry = vstd::std_specs::vec::vec_index_mut(
                    &mut self.entries,
                    i,
                );
                Some(&mut entry_ref.data)
            },
            None => None,
        }
    }

    /// Stores `value` under this key, returning the bytes previously held
    /// there, if any; an existing entry is always overwritten.
    pub(crate) fn insert_by_key(&mut self, hash: u32, value: Vec<u8>) -> (r: Option<Vec<u8>>)
        requires
            old(self).well_formed(),
        ensures
            final(self).well_formed(),
            final(self)@ == old(self)@.insert(hash, value@),
            match r {
                Some(prev) => old(self)@.contains_key(hash) && prev@ == old(self)@[hash],
                None => !old(self)@.contains_key(hash),
            },
    {
        let p: usize = self.find_position(hash);
        proof {
            lemma_entries_map_dom(self.entries@, hash);
        }
        if p < self.entries.len() && self.entries[p].key == hash {
            proof {
                lemma_entries_map_index(self.entries@, p as int);
                lemma_entries_map_update(self.entries@, p as int, Entry { key: hash, data: value });
            }
            let prev: Entry = self.entries.remove(p);
            self.entries.insert(p, Entry { key: hash, data: value });
            proof {
                assert(self.entries@ =~= old(self).entries@.update(
                    p as int,
                    Entry { key: hash, data: value },
                ));
            }
            Some(prev.data)
        } else {
            proof {
                lemma_entries_map_insert(self.entries@, p as int, Entry { key: hash, data: value });
            }
            self.entries.insert(p, Entry { key: hash, data: value });
            None
        }
    }

    /// Stores `value` under this name's key, returning the bytes previously
    /// held there, if any; an existing entry is always overwritten. Two
    /// names hashing alike therefore share one slot, by design.
    pub fn insert(&mut self, key: &str, value: Vec<u8>) -> (r: Option<Vec<u8>>)
        requires
            old(self).well_formed(),
        ensures
            final(self).well_formed(),
            final(self)@ == old(self)@.insert(name_hash(key.spec_bytes()), value@),
            match r {
                Some(prev) => old(self)@.contains_key(name_hash(key.spec_bytes())) && prev@ == old(
                    self,
                )@[name_hash(key.spec_bytes())],
                None => !old(self)@.contains_key(name_hash(key.spec_bytes())),
            },
    {
        let hash: u32 = entry_hash(key);
        self.insert_by_key(hash, value)
    }

    /// Removes the entry under this name's key, returning its bytes, or
    /// `None` if there was none.
    pub fn remove(&mut self, key: &str) -> (r: Option<Vec<u8>>)
        requires
            old(self).well_formed(),
        ensures
            final(self).well_formed(),
            final(self)@ == old(self)@.remove(name_hash(key.spec_bytes())),
            match r {
                Some(prev) => old(self)@.contains_key(name_hash(key.spec_bytes())) && prev@ == old(
                    self,
                )@[name_hash(key.spec_bytes())],
                None => !old(self)@.contains_key(name_hash(key.spec_bytes())),
            },
    {
        let hash: u32 = entry_hash(key);
        proof {
            lemma_entries_map_dom(self.entries@, hash);
        }
        match self.find(hash) {
            Some(i) => {
                proof {
                    lemma_entries_map_index(self.entries@, i as int);
                    lemma_entries_map_remove(self.entries@, i as int);
                }
                let prev: Entry = self.entries.remove(i);
                Some(prev.data)
            },
            None => {
                proof {
                    assert(old(self)@.remove(hash) =~= old(self)@);
                }
                None
            },
        }
    }

    /// Removes every entry.
    pub fn clear(&mut self)
        ensures
            final(self).well_formed(),
            final(self)@ == Map::<u32, Seq<u8>>::empty(),
    {
        self.entries.clear();
    }

    /// The number of entries held.
    pub fn len(&self) -> (r: usize)
        requires
            self.well_formed(),
        ensures
            r == self@.dom().len(),
            self@.dom().finite(),
    {
        proof {
            lemma_entries_map_len(self.entries@);
        }
        self.entries.len()
    }

    /// Returns `true` if the store holds no entries.
    pub fn is_empty(&self) -> (r: bool)
        requires
            self.well_formed(),
        ensures
            r == (self@.dom().len() == 0),
            self@.dom().finite(),
            r ==> self@ == Map::<u32, Seq<u8>>::empty(),
    {
        proof {
            lemma_entries_map_len(self.entries@);
            if self.entries@.len() == 0 {
                assert(self@ =~= Map::<u32, Seq<u8>>::empty());
            }
        }
        self.entries.is_empty()
    }
}

impl core::default::Default for Archive {
    /// An empty store, as [`Archive::new`] builds.
    fn default() -> (r: Archive)
        ensures
            r.well_formed(),
            r@ == Map::<u32, Seq<u8>>::empty(),
    {
        Archive::new()
    }
}

/// Law of the empty store: it has no keys and length zero, so every lookup
/// misses.
pub proof fn lemma_empty_store(k: u32)
    ensures
        Map::<u32, Seq<u8>>::empty().dom().len() == 0,
        !Map::<u32, Seq<u8>>::empty().contains_key(k),
{
    assert(Map::<u32, Seq<u8>>::empty().dom() =~= Set::<u32>::empty());
}

/// Overwrite law: writing `v1` then `v2` under one key leaves `v2` there,
/// and the intervening store held exactly `v1` for that key.
pub proof fn lemma_overwrite(m: Map<u32, Seq<u8>>, k: u32, v1: Seq<u8>, v2: Seq<u8>)
    ensures
        m.insert(k, v1).contains_key(k),
        m.insert(k, v1)[k] == v1,
        m.insert(k, v1).insert(k, v2)[k] == v2,
{
}

/// Removal law: once a key is removed, a lookup of it misses.
pub proof fn lemma_remove_then_absent(m: Map<u32, Seq<u8>>, k: u32)
    ensures
        !m.remove(k).contains_key(k),
{
}

} // verus!
