//! The request-handling facade: it translates each request into store and
//! frequency-tracker operations and maps their outcomes to responses or
//! typed error signals.

use vstd::prelude::*;

use crate::codec::snapshot_string;
use crate::codec::snapshot_text;
use crate::codec::wrapped_models;
use crate::codec::WrappedEntry;
use crate::freq::bumped;
use crate::freq::counter_keys_distinct;
use crate::freq::counter_map_of;
use crate::freq::FrequencyTracker;
use crate::freq::ReadFrequency;
use crate::persist::loaded_map;
use crate::persist::pairs_map;
use crate::roundtrip::lemma_save_then_load;
use crate::store::entry_models;
use crate::store::keys_distinct;
use crate::store::lemma_map_of_push;
use crate::store::map_of;
use crate::store::Entry;
use crate::store::Store;

verus! {

/// The typed error signals a request can come back with.
#[derive(Clone, Copy, Debug, PartialEq, Eq, Structural)]
pub enum RpcError {
    /// The requested key is absent though the operation needs it.
    NotFound,
    /// A create was asked for a key that is already present.
    AlreadyExists,
    /// The persistence write failed during an explicit flush.
    Internal,
}

/// The facade over the store and the frequency tracker.
pub struct DataMapService {
    store: Store,
    freqs: FrequencyTracker,
}

proof fn lemma_pairs_map_of_entries(s: Seq<Entry>)
    requires
        keys_distinct(s),
    ensures
        pairs_map(entry_models(s)) == map_of(s),
    decreases s.len(),
{
    if s.len() == 0 {
        assert(entry_models(s) =~= Seq::<(Seq<char>, i64)>::empty());
        assert(pairs_map(entry_models(s)) =~= Map::<Seq<char>, i64>::empty());
        assert(map_of(s) =~= Map::<Seq<char>, i64>::empty());
    } else {
        let p = s.drop_last();
        let e = s.last();
        assert(keys_distinct(p));
        if crate::store::has_key(p, e.key@) {
            let i = choose|i: int| 0 <= i < p.len() && p[i].key@ == e.key@;
            assert(s[i].key@ == s[s.len() - 1].key@);
            assert(false);
        }
        lemma_pairs_map_of_entries(p);
        lemma_map_of_push(p, e);
        assert(p.push(e) =~= s);
        assert(entry_models(s).drop_last() =~= entry_models(p));
        assert(entry_models(s).last() == e@);
    }
}

impl DataMapService {
    /// The facade's internal invariant.
    pub closed spec fn wf(&self) -> bool {
        self.store.wf() && self.freqs.wf()
    }

    /// The key-to-value mapping currently held.
    pub closed spec fn store_map(&self) -> Map<Seq<char>, i64> {
        self.store@
    }

    /// The read-frequency mapping currently held.
    pub closed spec fn freq_map(&self) -> Map<Seq<char>, u32> {
        self.freqs@
    }

    /// Wraps a starting store, with no reads recorded yet.
    pub fn new(store: Store) -> (s: DataMapService)
        requires
            store.wf(),
        ensures
            s.wf(),
            s.store_map() == store@,
            s.freq_map() == Map::<Seq<char>, u32>::empty(),
    {
        DataMapService { store, freqs: FrequencyTracker::new() }
    }

    /// Looks a key up.  A hit returns the value and records the read; a
    /// miss reports `NotFound` and leaves the frequencies untouched.
    pub fn get(&mut self, key: &str) -> (r: Result<i64, RpcError>)
        requires
            old(self).wf(),
        ensures
            final(self).wf(),
            final(self).store_map() == old(self).store_map(),
            match r {
                Ok(v) => old(self).store_map().contains_key(key@) && v == old(
                    self,
                ).store_map()[key@] && final(self).freq_map() == bumped(old(self).freq_map(), key@),
                Err(e) => e == RpcError::NotFound && !old(self).store_map().contains_key(key@)
                    && final(self).freq_map() == old(self).freq_map(),
            },
    {
        match self.store.get(key) {
            Some(v) => {
                self.freqs.record_read(String::from_str(key));
                Ok(v)
            },
            None => Err(RpcError::NotFound),
        }
    }

    /// Inserts a new key.  Fails with `AlreadyExists` when the key is
    /// present; frequencies are untouched either way.
    pub fn create(&mut self, key: String, value: i64) -> (r: Result<(), RpcError>)
        requires
            old(self).wf(),
        ensures
            final(self).wf(),
            final(self).freq_map() == old(self).freq_map(),
            match r {
                Ok(u) => !old(self).store_map().contains_key(key@) && final(self).store_map()
                    == old(self).store_map().insert(key@, value),
                Err(e) => e == RpcError::AlreadyExists && old(self).store_map().contains_key(key@)
                    && final(self).store_map() == old(self).store_map(),
            },
    {
        if self.store.create(key, value) {
            Ok(())
        } else {
            Err(RpcError::AlreadyExists)
        }
    }

    /// Overwrites an existing key's value.  Fails with `NotFound` when
    /// the key is absent; frequencies are untouched either way.
    pub fn update(&mut self, key: &str, value: i64) -> (r: Result<(), RpcError>)
        requires
            old(self).wf(),
        ensures
            final(self).wf(),
            final(self).freq_map() == old(self).freq_map(),
            match r {
                Ok(u) => old(self).store_map().contains_key(key@) && final(self).store_map()
                    == old(self).store_map().insert(key@, value),
                Err(e) => e == RpcError::NotFound && !old(self).store_map().contains_key(key@)
                    && final(self).store_map() == old(self).store_map(),
            },
    {
        if self.store.update(key, value) {
            Ok(())
        } else {
            Err(RpcError::NotFound)
        }
    }

    /// Removes a key.  Fails with `NotFound` when the key is absent; the
    /// key's frequency counter, if any, stays, by design.
    pub fn delete(&mut self, key: &str) -> (r: Result<(), RpcError>)
        requires
            old(self).wf(),
        ensures
            final(self).wf(),
            final(self).freq_map() == old(self).freq_map(),
            match r {
                Ok(u) => old(self).store_map().contains_key(key@) && final(self).store_map()
                    == old(self).store_map().remove(key@),
                Err(e) => e == RpcError::NotFound && !old(self).store_map().contains_key(key@)
                    && final(self).store_map() == old(self).store_map(),
            },
    {
        if self.store.delete(key) {
            Ok(())
        } else {
            Err(RpcError::NotFound)
        }
    }

    /// A snapshot of all current entries; no order is guaranteed.
    pub fn get_entries(&self) -> (r: Vec<Entry>)
        requires
            self.wf(),
        ensures
            keys_distinct(r@),
            map_of(r@) == self.store_map(),
    {
        self.store.list_entries()
    }

    /// A snapshot of all read-frequency counters; no order is guaranteed.
    pub fn get_read_summary(&self) -> (r: Vec<ReadFrequency>)
        requires
            self.wf(),
        ensures
            counter_keys_distinct(r@),
            counter_map_of(r@) == self.freq_map(),
    {
        self.freqs.snapshot()
    }

    /// The snapshot text of the current store content, for the caller to
    /// write out: the text of some record sequence whose mapping is
    /// exactly the store's, so loading the text back gives exactly the
    /// store's map.
    pub fn snapshot_text(&self) -> (t: String)
        requires
            self.wf(),
        ensures
            exists|es: Seq<(Seq<char>, i64)>|
                t@ == snapshot_text(es) && pairs_map(es) == self.store_map(),
            loaded_map(Some(t@)) == self.store_map(),
    {
        let entries = self.store.list_entries();
        let n = entries.len();
        let mut records: Vec<WrappedEntry> = Vec::new();
        let mut i: usize = 0;
        while i < n
            invariant
                i <= n,
                n == entries@.len(),
                records@.len() == i,
                forall|j: int| 0 <= j < i ==> records@[j]@ == entries@[j]@,
            decreases n - i,
        {
            let e = &entries[i];
            records.push(WrappedEntry(Entry { key: e.key.clone(), value: e.value }));
            i += 1;
        }
        let t = snapshot_string(&records);
        proof {
            assert(wrapped_models(records@) =~= entry_models(entries@));
            lemma_pairs_map_of_entries(entries@);
            lemma_save_then_load(wrapped_models(records@));
        }
        t
    }
}

/// The outcome of an explicit flush, given whether the persistence write
/// went through: success, or the `Internal` error signal.
pub fn flush_result(write_ok: bool) -> (r: Result<(), RpcError>)
    ensures
        write_ok ==> r == Ok::<(), RpcError>(()),
        !write_ok ==> r == Err::<(), RpcError>(RpcError::Internal),
{
    if write_ok {
        Ok(())
    } else {
        Err(RpcError::Internal)
    }
}

} // verus!
