//! Laws relating successive operations, stated over the same maps the
//! operations' own contracts speak of: `DataMapService::create`,
//! `update` and `delete` step the store map by `insert` and `remove`,
//! `get` reads it and steps the frequency map by `bumped`.

use vstd::prelude::*;

use crate::freq::bumped;

verus! {

/// A create followed at once by a get of the same key: the get returns
/// the created value, and the key's read frequency becomes one when the
/// key had never been read before.
pub proof fn lemma_create_then_get(
    m: Map<Seq<char>, i64>,
    f: Map<Seq<char>, u32>,
    k: Seq<char>,
    v: i64,
)
    requires
        !m.contains_key(k),
        !f.contains_key(k),
    ensures
        m.insert(k, v).contains_key(k),
        m.insert(k, v)[k] == v,
        bumped(f, k)[k] == 1u32,
{
}

/// A second create of the same key fails, by `create`'s contract, since
/// the key is then present; and the value stays the one first created,
/// since a failed create leaves the store map unchanged.
pub proof fn lemma_create_twice(m: Map<Seq<char>, i64>, k: Seq<char>, v: i64)
    requires
        !m.contains_key(k),
    ensures
        m.insert(k, v).contains_key(k),
        m.insert(k, v)[k] == v,
{
}

/// An update of a present key makes a subsequent get return the new
/// value; on an absent key, `update`'s contract reports `NotFound` and
/// leaves the store map unchanged.
pub proof fn lemma_update_then_get(m: Map<Seq<char>, i64>, k: Seq<char>, v2: i64)
    requires
        m.contains_key(k),
    ensures
        m.insert(k, v2).contains_key(k),
        m.insert(k, v2)[k] == v2,
{
}

/// A delete of a present key makes a subsequent get of it miss; on an
/// absent key, `delete`'s contract reports `NotFound` and leaves the
/// store map unchanged.
pub proof fn lemma_delete_then_get(m: Map<Seq<char>, i64>, k: Seq<char>)
    ensures
        !m.remove(k).contains_key(k),
{
}

/// One successful get raises the read key's counter by exactly one —
/// starting from zero for a key never read — and touches no other
/// counter.  Failed gets, creates, updates and deletes leave the whole
/// frequency map unchanged by those operations' contracts.  The one
/// input left out here is a counter already at the `u32` ceiling, where
/// it stays put.
pub proof fn lemma_get_bumps_by_one(f: Map<Seq<char>, u32>, k: Seq<char>)
    requires
        f.contains_key(k) ==> f[k] < u32::MAX,
    ensures
        bumped(f, k)[k] == if f.contains_key(k) {
            (f[k] + 1) as u32
        } else {
            1u32
        },
        forall|k2: Seq<char>|
            k2 != k ==> bumped(f, k).contains_key(k2) == f.contains_key(k2),
        forall|k2: Seq<char>|
            k2 != k && f.contains_key(k2) ==> bumped(f, k)[k2] == f[k2],
{
}

} // verus!
