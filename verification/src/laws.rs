//! The laws of saving and loading: what holds of every store, every key
//! and every snapshot, proved once and for all.

use vstd::prelude::*;

use crate::snapshot::{wf_snap, SnapV};
use crate::store::{
    lemma_canon_id_sorted, lemma_canon_lookup, lemma_canon_sorted, lemma_canon_wf,
    lemma_upsert_lookup_other, lemma_upsert_lookup_same, lemma_upsert_sorted, lemma_upsert_wf,
    sorted_keys, spec_load_canon, spec_lookup, spec_lookup_latest, spec_prev, spec_save,
    spec_upsert, wf_store,
};
use crate::codec::spec_load;
use crate::roundtrip::{lemma_load_ser, lemma_load_wf};

verus! {

/// The store a save starts from is well-formed and sorted, whatever the
/// previous file held.
proof fn lemma_prev_canonical(old: Option<Seq<u8>>)
    ensures
        wf_store(spec_prev(old)),
        sorted_keys(spec_prev(old)),
{
    match old {
        None => {},
        Some(s) => {
            lemma_load_wf(s);
            match spec_load(s) {
                Some(raw) => {
                    lemma_canon_wf(raw);
                    lemma_canon_sorted(raw);
                },
                None => {},
            }
        },
    }
}

/// Round trip: the bytes written by a save parse back to exactly the store
/// they were written from — every number token bit for bit — the saved key
/// is bound to the saved snapshot, and the written keys strictly ascend.
pub proof fn lemma_save_round_trip(old: Option<Seq<u8>>, k: Seq<u8>, v: SnapV)
    requires
        wf_snap(v),
    ensures
        spec_load(spec_save(old, k, v)) == Some(spec_upsert(spec_prev(old), k, v)),
        spec_load_canon(spec_save(old, k, v)) == Some(spec_upsert(spec_prev(old), k, v)),
        spec_lookup(spec_upsert(spec_prev(old), k, v), k) == Some(v),
        sorted_keys(spec_upsert(spec_prev(old), k, v)),
{
    let m0 = spec_prev(old);
    let m1 = spec_upsert(m0, k, v);
    lemma_prev_canonical(old);
    lemma_upsert_wf(m0, k, v);
    lemma_load_ser(m1);
    lemma_upsert_sorted(m0, k, v);
    lemma_canon_id_sorted(m1);
    lemma_upsert_lookup_same(m0, k, v);
}

/// Non-destructive shared save: after saving one livery's snapshot, every
/// other livery's entry in the written store is exactly what the previous
/// file last bound it to.
pub proof fn lemma_save_preserves_others(old: Option<Seq<u8>>, k: Seq<u8>, v: SnapV, k2: Seq<u8>)
    requires
        wf_snap(v),
        k2 != k,
    ensures
        spec_load_canon(spec_save(old, k, v)) == Some(spec_upsert(spec_prev(old), k, v)),
        spec_lookup(spec_upsert(spec_prev(old), k, v), k2) == spec_lookup(spec_prev(old), k2),
        match old {
            Some(s) => match spec_load(s) {
                Some(raw) => spec_lookup(spec_prev(old), k2) == spec_lookup_latest(raw, k2),
                None => spec_lookup(spec_prev(old), k2) is None,
            },
            None => spec_lookup(spec_prev(old), k2) is None,
        },
{
    lemma_save_round_trip(old, k, v);
    lemma_upsert_lookup_other(spec_prev(old), k, v, k2);
    match old {
        Some(s) => match spec_load(s) {
            Some(raw) => {
                lemma_canon_lookup(raw, k2);
            },
            None => {},
        },
        None => {},
    }
}

} // verus!
