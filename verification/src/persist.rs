//! Building a store from a snapshot text.
//!
//! A missing file (no text), or one whose text does not parse, yields an
//! empty store on purpose: a bad persistence file must never keep the
//! service from starting.

use vstd::prelude::*;

use crate::codec::snapshot_of;
use crate::codec::wrapped_models;
use crate::codec::WrappedEntry;
use crate::store::Store;

verus! {

/// The mapping described by a sequence of key/value pairs, a later pair
/// overriding an earlier one with the same key.
pub open spec fn pairs_map(es: Seq<(Seq<char>, i64)>) -> Map<Seq<char>, i64>
    decreases es.len(),
{
    if es.len() == 0 {
        Map::empty()
    } else {
        pairs_map(es.drop_last()).insert(es.last().0, es.last().1)
    }
}

/// The store a snapshot text stands for: its records' mapping when the
/// text parses, the empty mapping when there is no text or it is
/// malformed.
pub open spec fn loaded_map(text: Option<Seq<char>>) -> Map<Seq<char>, i64> {
    match text {
        Some(t) => match snapshot_of(t) {
            Some(es) => pairs_map(es),
            None => Map::empty(),
        },
        None => Map::empty(),
    }
}

/// Builds a store holding the given records, a later record overriding an
/// earlier one with the same key.
pub fn store_from_records(records: &Vec<WrappedEntry>) -> (s: Store)
    ensures
        s.wf(),
        s@ == pairs_map(wrapped_models(records@)),
{
    let ghost es = wrapped_models(records@);
    let mut s = Store::new();
    let n = records.len();
    let mut i: usize = 0;
    proof {
        assert(es.take(0) =~= Seq::<(Seq<char>, i64)>::empty());
    }
    while i < n
        invariant
            i <= n,
            n == records@.len(),
            es == wrapped_models(records@),
            s.wf(),
            s@ == pairs_map(es.take(i as int)),
        decreases n - i,
    {
        let e = &records[i].0;
        s.put(e.key.clone(), e.value);
        proof {
            assert(es.take(i + 1).drop_last() =~= es.take(i as int));
            assert(es.take(i + 1).last() == es[i as int]);
        }
        i += 1;
    }
    proof {
        assert(es.take(n as int) =~= es);
    }
    s
}

/// Builds the starting store from the snapshot file's text, `None`
/// standing for a file that could not be read.  A malformed text gives an
/// empty store, never an error.
pub fn load_store(text: Option<&str>) -> (s: Store)
    ensures
        s.wf(),
        match text {
            Some(t) => s@ == loaded_map(Some(t@)),
            None => s@ == loaded_map(None),
        },
{
    match text {
        None => Store::new(),
        Some(t) => match crate::codec::parse_snapshot(t) {
            None => Store::new(),
            Some(records) => store_from_records(&records),
        },
    }
}

} // verus!
