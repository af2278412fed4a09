//! The read-frequency tracker: a mapping from string keys to counters of
//! successful reads, viewed in contracts as a `Map<Seq<char>, u32>`.
//!
//! A key appears here only once it has been read successfully at least
//! once; deleting a key from the store leaves its counter in place, by
//! design.

use vstd::prelude::*;

use crate::store::str_eq;

verus! {

/// One key together with the number of successful reads it has received.
pub struct ReadFrequency {
    pub key: String,
    pub freq: u32,
}

impl View for ReadFrequency {
    type V = (Seq<char>, u32);

    open spec fn view(&self) -> (Seq<char>, u32) {
        (self.key@, self.freq)
    }
}

/// Whether the sequence of counters has pairwise distinct keys.
pub open spec fn counter_keys_distinct(s: Seq<ReadFrequency>) -> bool {
    forall|i: int, j: int| 0 <= i < j < s.len() ==> s[i].key@ != s[j].key@
}

/// Whether some counter of `s` carries the key `k`.
pub open spec fn counter_has_key(s: Seq<ReadFrequency>, k: Seq<char>) -> bool {
    exists|i: int| 0 <= i < s.len() && s[i].key@ == k
}

/// The index of the counter carrying key `k` (meaningful only when present).
pub open spec fn counter_index_of(s: Seq<ReadFrequency>, k: Seq<char>) -> int {
    choose|i: int| 0 <= i < s.len() && s[i].key@ == k
}

/// The mapping described by a sequence of counters with distinct keys.
pub open spec fn counter_map_of(s: Seq<ReadFrequency>) -> Map<Seq<char>, u32> {
    Map::new(
        |k: Seq<char>| counter_has_key(s, k),
        |k: Seq<char>| s[counter_index_of(s, k)].freq,
    )
}

/// The counter value a successful read leaves behind for key `k`: one more
/// than before, starting from one, held at the counter type's ceiling.
pub open spec fn next_count(f: Map<Seq<char>, u32>, k: Seq<char>) -> u32 {
    if f.contains_key(k) {
        if f[k] == u32::MAX {
            u32::MAX
        } else {
            (f[k] + 1) as u32
        }
    } else {
        1u32
    }
}

/// The frequency mapping after a successful read of key `k`.
pub open spec fn bumped(f: Map<Seq<char>, u32>, k: Seq<char>) -> Map<Seq<char>, u32> {
    f.insert(k, next_count(f, k))
}

proof fn lemma_counter_map_of_push(s: Seq<ReadFrequency>, e: ReadFrequency)
    requires
        counter_keys_distinct(s),
        !counter_has_key(s, e.key@),
    ensures
        counter_keys_distinct(s.push(e)),
        counter_map_of(s.push(e)) == counter_map_of(s).insert(e.key@, e.freq),
{
    let t = s.push(e);
    assert forall|i: int, j: int| 0 <= i < j < t.len() implies t[i].key@ != t[j].key@ by {
        if j < s.len() {
            assert(t[i] == s[i] && t[j] == s[j]);
        } else {
            assert(t[j] == e && t[i] == s[i]);
            if s[i].key@ == e.key@ {
                assert(counter_has_key(s, e.key@));
            }
        }
    }
    assert forall|k: Seq<char>| counter_has_key(t, k) implies k == e.key@ || counter_has_key(
        s,
        k,
    ) by {
        let i = choose|i: int| 0 <= i < t.len() && t[i].key@ == k;
        if i < s.len() {
            assert(s[i].key@ == k);
        } else {
            assert(t[i] == e);
        }
    }
    assert forall|k: Seq<char>| counter_has_key(s, k) implies counter_has_key(t, k) by {
        let i = choose|i: int| 0 <= i < s.len() && s[i].key@ == k;
        assert(t[i].key@ == k);
    }
    assert(t[s.len() as int] == e);
    assert(counter_has_key(t, e.key@));
    assert forall|k: Seq<char>| counter_has_key(t, k) implies counter_map_of(t)[k]
        == counter_map_of(s).insert(e.key@, e.freq)[k] by {
        let i = counter_index_of(t, k);
        assert(0 <= i < t.len() && t[i].key@ == k);
        if k == e.key@ {
            if i < s.len() {
                assert(s[i].key@ == e.key@);
                assert(counter_has_key(s, e.key@));
            }
            assert(t[i] == e);
        } else {
            assert(i < s.len() && t[i] == s[i]);
            assert(counter_has_key(s, k));
            let w = counter_index_of(s, k);
            assert(0 <= w < s.len() && s[w].key@ == k);
            assert(w == i);
        }
    }
    assert(counter_map_of(t) =~= counter_map_of(s).insert(e.key@, e.freq));
}

proof fn lemma_counter_map_of_set(s: Seq<ReadFrequency>, i: int, e: ReadFrequency)
    requires
        counter_keys_distinct(s),
        0 <= i < s.len(),
        e.key@ == s[i].key@,
    ensures
        counter_keys_distinct(s.update(i, e)),
        counter_map_of(s.update(i, e)) == counter_map_of(s).insert(e.key@, e.freq),
{
    let t = s.update(i, e);
    assert forall|a: int, b: int| 0 <= a < b < t.len() implies t[a].key@ != t[b].key@ by {
        assert(t[a].key@ == s[a].key@ && t[b].key@ == s[b].key@);
    }
    assert forall|k: Seq<char>| counter_has_key(t, k) <==> counter_has_key(s, k) by {
        if counter_has_key(t, k) {
            let a = choose|a: int| 0 <= a < t.len() && t[a].key@ == k;
            assert(s[a].key@ == k);
        }
        if counter_has_key(s, k) {
            let a = choose|a: int| 0 <= a < s.len() && s[a].key@ == k;
            assert(t[a].key@ == k);
        }
    }
    assert forall|k: Seq<char>| counter_has_key(t, k) implies counter_map_of(t)[k]
        == counter_map_of(s).insert(e.key@, e.freq)[k] by {
        let a = counter_index_of(t, k);
        assert(0 <= a < t.len() && t[a].key@ == k);
        if k == e.key@ {
            assert(a == i);
            assert(t[a] == e);
        } else {
            assert(a != i);
            assert(t[a] == s[a]);
            let w = counter_index_of(s, k);
            assert(0 <= w < s.len() && s[w].key@ == k);
            assert(w == a);
        }
    }
    assert(counter_map_of(t) =~= counter_map_of(s).insert(e.key@, e.freq));
}

proof fn lemma_counter_map_of_congruence(a: Seq<ReadFrequency>, b: Seq<ReadFrequency>)
    requires
        a.len() == b.len(),
        forall|j: int| 0 <= j < a.len() ==> a[j]@ == b[j]@,
        counter_keys_distinct(b),
    ensures
        counter_keys_distinct(a),
        counter_map_of(a) == counter_map_of(b),
{
    assert forall|i: int, j: int| 0 <= i < j < a.len() implies a[i].key@ != a[j].key@ by {
        assert(a[i]@ == b[i]@ && a[j]@ == b[j]@);
    }
    assert forall|k: Seq<char>| counter_has_key(a, k) <==> counter_has_key(b, k) by {
        if counter_has_key(a, k) {
            let i = choose|i: int| 0 <= i < a.len() && a[i].key@ == k;
            assert(b[i]@ == a[i]@);
            assert(b[i].key@ == k);
        }
        if counter_has_key(b, k) {
            let i = choose|i: int| 0 <= i < b.len() && b[i].key@ == k;
            assert(a[i]@ == b[i]@);
            assert(a[i].key@ == k);
        }
    }
    assert forall|k: Seq<char>| counter_has_key(a, k) implies counter_map_of(a)[k]
        == counter_map_of(b)[k] by {
        let i = counter_index_of(a, k);
        assert(0 <= i < a.len() && a[i].key@ == k);
        let w = counter_index_of(b, k);
        assert(counter_has_key(b, k));
        assert(0 <= w < b.len() && b[w].key@ == k);
        assert(a[w]@ == b[w]@);
        assert(a[w].key@ == k);
        assert(w == i);
        assert(a[i]@ == b[i]@);
    }
    assert(counter_map_of(a) =~= counter_map_of(b));
}

/// The read-frequency tracker.
pub struct FrequencyTracker {
    counts: Vec<ReadFrequency>,
}

impl View for FrequencyTracker {
    type V = Map<Seq<char>, u32>;

    closed spec fn view(&self) -> Map<Seq<char>, u32> {
        counter_map_of(self.counts@)
    }
}

impl FrequencyTracker {
    /// The tracker's internal invariant: counter keys are pairwise distinct.
    pub closed spec fn wf(&self) -> bool {
        counter_keys_distinct(self.counts@)
    }

    /// Creates a tracker with no counters.
    pub fn new() -> (t: FrequencyTracker)
        ensures
            t.wf(),
            t@ == Map::<Seq<char>, u32>::empty(),
    {
        let t = FrequencyTracker { counts: Vec::new() };
        proof {
            assert(t@ =~= Map::<Seq<char>, u32>::empty());
        }
        t
    }

    /// Finds the position of `key` among the counters, if present.
    fn find(&self, key: &str) -> (r: Option<usize>)
        ensures
            match r {
                Some(i) => i < self.counts@.len() && self.counts@[i as int].key@ == key@,
                None => !counter_has_key(self.counts@, key@),
            },
    {
        let n = self.counts.len();
        let mut i: usize = 0;
        while i < n
            invariant
                i <= n,
                n == self.counts@.len(),
                forall|j: int| 0 <= j < i ==> self.counts@[j].key@ != key@,
            decreases n - i,
        {
            if str_eq(self.counts[i].key.as_str(), key) {
                return Some(i);
            }
            i += 1;
        }
        None
    }

    /// Records one successful read of `key`: its counter rises by one,
    /// starting at one if the key had never been read.
    pub fn record_read(&mut self, key: String)
        requires
            old(self).wf(),
        ensures
            final(self).wf(),
            final(self)@ == bumped(old(self)@, key@),
    {
        match self.find(&key) {
            Some(i) => {
                let ghost s0 = self.counts@;
                let old_counter = self.counts.remove(i);
                let c = old_counter.freq;
                let next = if c == u32::MAX {
                    c
                } else {
                    c + 1
                };
                let e = ReadFrequency { key: old_counter.key, freq: next };
                self.counts.insert(i, e);
                proof {
                    let w = counter_index_of(s0, key@);
                    assert(counter_has_key(s0, key@));
                    assert(0 <= w < s0.len() && s0[w].key@ == key@);
                    assert(w == i);
                    assert(self.counts@ =~= s0.update(i as int, e));
                    lemma_counter_map_of_set(s0, i as int, e);
                }
            },
            None => {
                let ghost s0 = self.counts@;
                let e = ReadFrequency { key, freq: 1 };
                proof {
                    lemma_counter_map_of_push(s0, e);
                }
                self.counts.push(e);
            },
        }
    }

    /// A snapshot of all counters; no order is guaranteed.
    pub fn snapshot(&self) -> (r: Vec<ReadFrequency>)
        requires
            self.wf(),
        ensures
            counter_keys_distinct(r@),
            counter_map_of(r@) == self@,
    {
        let n = self.counts.len();
        let mut out: Vec<ReadFrequency> = Vec::new();
        let mut i: usize = 0;
        while i < n
            invariant
                i <= n,
                n == self.counts@.len(),
                out@.len() == i,
                forall|j: int| 0 <= j < i ==> out@[j]@ == self.counts@[j]@,
            decreases n - i,
        {
            let e = &self.counts[i];
            out.push(ReadFrequency { key: e.key.clone(), freq: e.freq });
            i += 1;
        }
        proof {
            lemma_counter_map_of_congruence(out@, self.counts@);
        }
        out
    }
}

} // verus!
