//! The key-to-value store: a mapping from string keys to 64-bit integer
//! values, held as a vector of entries with pairwise distinct keys and
//! viewed in contracts as a `Map<Seq<char>, i64>`.

use vstd::prelude::*;

verus! {

/// A single key/value pair of the store.
pub struct Entry {
    pub key: String,
    pub value: i64,
}

impl View for Entry {
    type V = (Seq<char>, i64);

    open spec fn view(&self) -> (Seq<char>, i64) {
        (self.key@, self.value)
    }
}

/// Whether the sequence of entries has pairwise distinct keys.
pub open spec fn keys_distinct(s: Seq<Entry>) -> bool {
    forall|i: int, j: int| 0 <= i < j < s.len() ==> s[i].key@ != s[j].key@
}

/// Whether some entry of `s` carries the key `k`.
pub open spec fn has_key(s: Seq<Entry>, k: Seq<char>) -> bool {
    exists|i: int| 0 <= i < s.len() && s[i].key@ == k
}

/// The index of the entry carrying key `k` (meaningful only when `has_key`).
pub open spec fn index_of(s: Seq<Entry>, k: Seq<char>) -> int {
    choose|i: int| 0 <= i < s.len() && s[i].key@ == k
}

/// The mapping described by a sequence of entries with distinct keys.
pub open spec fn map_of(s: Seq<Entry>) -> Map<Seq<char>, i64> {
    Map::new(|k: Seq<char>| has_key(s, k), |k: Seq<char>| s[index_of(s, k)].value)
}

/// The models of a sequence of entries, in order.
pub open spec fn entry_models(s: Seq<Entry>) -> Seq<(Seq<char>, i64)> {
    Seq::new(s.len(), |i: int| s[i]@)
}

pub proof fn lemma_map_of_push(s: Seq<Entry>, e: Entry)
    requires
        keys_distinct(s),
        !has_key(s, e.key@),
    ensures
        keys_distinct(s.push(e)),
        map_of(s.push(e)) == map_of(s).insert(e.key@, e.value),
{
    let t = s.push(e);
    assert forall|i: int, j: int| 0 <= i < j < t.len() implies t[i].key@ != t[j].key@ by {
        if j < s.len() {
            assert(t[i] == s[i] && t[j] == s[j]);
        } else {
            assert(t[j] == e && t[i] == s[i]);
            if s[i].key@ == e.key@ {
                assert(has_key(s, e.key@));
            }
        }
    }
    assert forall|k: Seq<char>| has_key(t, k) implies k == e.key@ || has_key(s, k) by {
        let i = choose|i: int| 0 <= i < t.len() && t[i].key@ == k;
        if i < s.len() {
            assert(s[i].key@ == k);
        } else {
            assert(t[i] == e);
        }
    }
    assert forall|k: Seq<char>| has_key(s, k) implies has_key(t, k) by {
        let i = choose|i: int| 0 <= i < s.len() && s[i].key@ == k;
        assert(t[i].key@ == k);
    }
    assert(t[s.len() as int] == e);
    assert(has_key(t, e.key@));
    assert forall|k: Seq<char>| has_key(t, k) implies map_of(t)[k] == map_of(s).insert(
        e.key@,
        e.value,
    )[k] by {
        let i = index_of(t, k);
        assert(0 <= i < t.len() && t[i].key@ == k);
        if k == e.key@ {
            if i < s.len() {
                assert(s[i].key@ == e.key@);
                assert(has_key(s, e.key@));
            }
            assert(t[i] == e);
        } else {
            assert(i < s.len() && t[i] == s[i]);
            assert(has_key(s, k));
            let w = index_of(s, k);
            assert(0 <= w < s.len() && s[w].key@ == k);
            assert(w == i);
        }
    }
    assert(map_of(t) =~= map_of(s).insert(e.key@, e.value));
}

proof fn lemma_map_of_set(s: Seq<Entry>, i: int, e: Entry)
    requires
        keys_distinct(s),
        0 <= i < s.len(),
        e.key@ == s[i].key@,
    ensures
        keys_distinct(s.update(i, e)),
        map_of(s.update(i, e)) == map_of(s).insert(e.key@, e.value),
{
    let t = s.update(i, e);
    assert forall|a: int, b: int| 0 <= a < b < t.len() implies t[a].key@ != t[b].key@ by {
        assert(t[a].key@ == s[a].key@ && t[b].key@ == s[b].key@);
    }
    assert forall|k: Seq<char>| has_key(t, k) <==> has_key(s, k) by {
        if has_key(t, k) {
            let a = choose|a: int| 0 <= a < t.len() && t[a].key@ == k;
            assert(s[a].key@ == k);
        }
        if has_key(s, k) {
            let a = choose|a: int| 0 <= a < s.len() && s[a].key@ == k;
            assert(t[a].key@ == k);
        }
    }
    assert forall|k: Seq<char>| has_key(t, k) implies map_of(t)[k] == map_of(s).insert(
        e.key@,
        e.value,
    )[k] by {
        let a = index_of(t, k);
        assert(0 <= a < t.len() && t[a].key@ == k);
        if k == e.key@ {
            assert(a == i);
            assert(t[a] == e);
        } else {
            assert(a != i);
            assert(t[a] == s[a]);
            let w = index_of(s, k);
            assert(0 <= w < s.len() && s[w].key@ == k);
            assert(w == a);
        }
    }
    assert(map_of(t) =~= map_of(s).insert(e.key@, e.value));
}

proof fn lemma_map_of_remove(s: Seq<Entry>, i: int)
    requires
        keys_distinct(s),
        0 <= i < s.len(),
    ensures
        keys_distinct(s.remove(i)),
        map_of(s.remove(i)) == map_of(s).remove(s[i].key@),
{
    let t = s.remove(i);
    let k0 = s[i].key@;
    assert forall|a: int, b: int| 0 <= a < b < t.len() implies t[a].key@ != t[b].key@ by {
        let a2 = if a < i { a } else { a + 1 };
        let b2 = if b < i { b } else { b + 1 };
        assert(t[a] == s[a2] && t[b] == s[b2]);
    }
    assert forall|k: Seq<char>| has_key(t, k) implies has_key(s, k) && k != k0 by {
        let a = choose|a: int| 0 <= a < t.len() && t[a].key@ == k;
        let a2 = if a < i { a } else { a + 1 };
        assert(t[a] == s[a2]);
        assert(s[a2].key@ == k);
        if k == k0 {
            assert(s[a2].key@ == s[i].key@ && a2 != i);
        }
    }
    assert forall|k: Seq<char>| has_key(s, k) && k != k0 implies has_key(t, k) by {
        let a = choose|a: int| 0 <= a < s.len() && s[a].key@ == k;
        assert(a != i);
        let a2 = if a < i { a } else { a - 1 };
        assert(t[a2] == s[a]);
        assert(t[a2].key@ == k);
    }
    assert forall|k: Seq<char>| has_key(t, k) implies map_of(t)[k] == map_of(s).remove(k0)[k] by {
        let a = index_of(t, k);
        assert(0 <= a < t.len() && t[a].key@ == k);
        let a2 = if a < i { a } else { a + 1 };
        assert(t[a] == s[a2]);
        let w = index_of(s, k);
        assert(has_key(s, k));
        assert(0 <= w < s.len() && s[w].key@ == k);
        assert(w == a2);
    }
    assert(map_of(t) =~= map_of(s).remove(k0));
}

proof fn lemma_map_of_congruence(a: Seq<Entry>, b: Seq<Entry>)
    requires
        a.len() == b.len(),
        forall|j: int| 0 <= j < a.len() ==> a[j]@ == b[j]@,
        keys_distinct(b),
    ensures
        keys_distinct(a),
        map_of(a) == map_of(b),
{
    assert forall|i: int, j: int| 0 <= i < j < a.len() implies a[i].key@ != a[j].key@ by {
        assert(a[i]@ == b[i]@ && a[j]@ == b[j]@);
    }
    assert forall|k: Seq<char>| has_key(a, k) <==> has_key(b, k) by {
        if has_key(a, k) {
            let i = choose|i: int| 0 <= i < a.len() && a[i].key@ == k;
            assert(b[i]@ == a[i]@);
            assert(b[i].key@ == k);
        }
        if has_key(b, k) {
            let i = choose|i: int| 0 <= i < b.len() && b[i].key@ == k;
            assert(a[i]@ == b[i]@);
            assert(a[i].key@ == k);
        }
    }
    assert forall|k: Seq<char>| has_key(a, k) implies map_of(a)[k] == map_of(b)[k] by {
        let i = index_of(a, k);
        assert(0 <= i < a.len() && a[i].key@ == k);
        let w = index_of(b, k);
        assert(has_key(b, k));
        assert(0 <= w < b.len() && b[w].key@ == k);
        assert(a[w]@ == b[w]@);
        assert(a[w].key@ == k);
        assert(w == i);
        assert(a[i]@ == b[i]@);
    }
    assert(map_of(a) =~= map_of(b));
}

/// Compares two string slices character by character.
pub fn str_eq(a: &str, b: &str) -> (r: bool)
    ensures
        r == (a@ == b@),
{
    let la = a.unicode_len();
    let lb = b.unicode_len();
    if la != lb {
        assert(a@ != b@) by {
            assert(a@.len() != b@.len());
        }
        return false;
    }
    let mut i: usize = 0;
    while i < la
        invariant
            i <= la,
            la == a@.len(),
            la == b@.len(),
            forall|j: int| 0 <= j < i ==> a@[j] == b@[j],
        decreases la - i,
    {
        if a.get_char(i) != b.get_char(i) {
            return false;
        }
        i += 1;
    }
    proof {
        assert(a@ =~= b@);
    }
    true
}

/// The key-to-value store.
pub struct Store {
    entries: Vec<Entry>,
}

impl View for Store {
    type V = Map<Seq<char>, i64>;

    closed spec fn view(&self) -> Map<Seq<char>, i64> {
        map_of(self.entries@)
    }
}

impl Store {
    /// The store's internal invariant: entry keys are pairwise distinct.
    pub closed spec fn wf(&self) -> bool {
        keys_distinct(self.entries@)
    }

    /// Creates an empty store.
    pub fn new() -> (s: Store)
        ensures
            s.wf(),
            s@ == Map::<Seq<char>, i64>::empty(),
    {
        let s = Store { entries: Vec::new() };
        proof {
            assert(s@ =~= Map::<Seq<char>, i64>::empty());
        }
        s
    }

    /// Finds the position of `key` among the entries, if it is present.
    fn find(&self, key: &str) -> (r: Option<usize>)
        ensures
            match r {
                Some(i) => i < self.entries@.len() && self.entries@[i as int].key@ == key@,
                None => !has_key(self.entries@, key@),
            },
    {
        let n = self.entries.len();
        let mut i: usize = 0;
        while i < n
            invariant
                i <= n,
                n == self.entries@.len(),
                forall|j: int| 0 <= j < i ==> self.entries@[j].key@ != key@,
            decreases n - i,
        {
            if str_eq(self.entries[i].key.as_str(), key) {
                return Some(i);
            }
            i += 1;
        }
        None
    }

    /// Inserts the entry; fails if the key is already present.
    pub fn create(&mut self, key: String, value: i64) -> (r: bool)
        requires
            old(self).wf(),
        ensures
            final(self).wf(),
            r == !old(self)@.contains_key(key@),
            r ==> final(self)@ == old(self)@.insert(key@, value),
            !r ==> final(self)@ == old(self)@,
    {
        match self.find(&key) {
            Some(i) => {
                proof {
                    assert(has_key(self.entries@, key@));
                }
                false
            },
            None => {
                let ghost s0 = self.entries@;
                let e = Entry { key, value };
                proof {
                    lemma_map_of_push(s0, e);
                }
                self.entries.push(e);
                true
            },
        }
    }

    /// Overwrites the value of an existing key; fails if the key is absent.
    pub fn update(&mut self, key: &str, value: i64) -> (r: bool)
        requires
            old(self).wf(),
        ensures
            final(self).wf(),
            r == old(self)@.contains_key(key@),
            r ==> final(self)@ == old(self)@.insert(key@, value),
            !r ==> final(self)@ == old(self)@,
    {
        match self.find(key) {
            Some(i) => {
                let ghost s0 = self.entries@;
                let old_entry = self.entries.remove(i);
                let e = Entry { key: old_entry.key, value };
                self.entries.insert(i, e);
                proof {
                    assert(self.entries@ =~= s0.update(i as int, e));
                    lemma_map_of_set(s0, i as int, e);
                }
                true
            },
            None => false,
        }
    }

    /// Removes the key's entry; fails if the key is absent.
    pub fn delete(&mut self, key: &str) -> (r: bool)
        requires
            old(self).wf(),
        ensures
            final(self).wf(),
            r == old(self)@.contains_key(key@),
            r ==> final(self)@ == old(self)@.remove(key@),
            !r ==> final(self)@ == old(self)@,
    {
        match self.find(key) {
            Some(i) => {
                let ghost s0 = self.entries@;
                proof {
                    lemma_map_of_remove(s0, i as int);
                }
                let _ = self.entries.remove(i);
                true
            },
            None => false,
        }
    }

    /// Inserts or overwrites, whichever the key's presence asks for.
    pub fn put(&mut self, key: String, value: i64)
        requires
            old(self).wf(),
        ensures
            final(self).wf(),
            final(self)@ == old(self)@.insert(key@, value),
    {
        if self.get(&key).is_some() {
            let _ = self.update(&key, value);
        } else {
            let _ = self.create(key, value);
        }
    }

    /// A snapshot of all current entries; no order is guaranteed.
    pub fn list_entries(&self) -> (r: Vec<Entry>)
        requires
            self.wf(),
        ensures
            keys_distinct(r@),
            map_of(r@) == self@,
    {
        let n = self.entries.len();
        let mut out: Vec<Entry> = Vec::new();
        let mut i: usize = 0;
        while i < n
            invariant
                i <= n,
                n == self.entries@.len(),
                out@.len() == i,
                forall|j: int| 0 <= j < i ==> out@[j]@ == self.entries@[j]@,
            decreases n - i,
        {
            let e = &self.entries[i];
            out.push(Entry { key: e.key.clone(), value: e.value });
            i += 1;
        }
        proof {
            lemma_map_of_congruence(out@, self.entries@);
        }
        out
    }

    /// Looks the key up; a pure read.
    pub fn get(&self, key: &str) -> (r: Option<i64>)
        requires
            self.wf(),
        ensures
            match r {
                Some(v) => self@.contains_key(key@) && self@[key@] == v,
                None => !self@.contains_key(key@),
            },
    {
        match self.find(key) {
            Some(i) => {
                proof {
                    let w = index_of(self.entries@, key@);
                    assert(self.entries@[w].key@ == key@);
                    assert(w == i);
                }
                Some(self.entries[i].value)
            },
            None => None,
        }
    }
}

} // verus!
