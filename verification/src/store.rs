//! The snapshot store: an ordered list of livery-keyed records. Loading
//! canonicalizes the parsed entry list (later duplicates win, keys sorted);
//! saving reads the previous content, replaces or inserts one entry, and
//! re-encodes the whole store, so saving one livery never erases another's
//! record.

use vstd::prelude::*;

use crate::bytes::{bytes_eq, copy_range, lex_lt, lex_lt_exec};
use crate::codec::{parse_store, ser_store, serialize_store, spec_load};
use crate::livery::LiveryKey;
use crate::snapshot::{entries_view, wf_snap, SnapV, Snapshot, StoreEntry};

verus! {

/// The first entry bound to `k`, scanning in list order.
pub open spec fn spec_lookup(m: Seq<(Seq<u8>, SnapV)>, k: Seq<u8>) -> Option<SnapV>
    decreases m.len(),
{
    if m.len() == 0 {
        None
    } else if m[0].0 == k {
        Some(m[0].1)
    } else {
        spec_lookup(m.skip(1), k)
    }
}

/// The latest entry bound to `k`: the meaning of a raw file in which a key
/// may repeat (a later record overrides an earlier one).
pub open spec fn spec_lookup_latest(m: Seq<(Seq<u8>, SnapV)>, k: Seq<u8>) -> Option<SnapV>
    decreases m.len(),
{
    if m.len() == 0 {
        None
    } else if m.last().0 == k {
        Some(m.last().1)
    } else {
        spec_lookup_latest(m.drop_last(), k)
    }
}

/// Replaces the entry bound to `k`, or inserts one at its sorted position.
pub open spec fn spec_upsert(m: Seq<(Seq<u8>, SnapV)>, k: Seq<u8>, v: SnapV) -> Seq<
    (Seq<u8>, SnapV),
>
    decreases m.len(),
{
    if m.len() == 0 {
        seq![(k, v)]
    } else if lex_lt(k, m[0].0) {
        seq![(k, v)] + m
    } else if k == m[0].0 {
        seq![(k, v)] + m.skip(1)
    } else {
        seq![m[0]] + spec_upsert(m.skip(1), k, v)
    }
}

/// Canonical form of a raw entry list: entries folded in file order into an
/// empty store, so later duplicates win and keys end up sorted.
pub open spec fn spec_canon(m: Seq<(Seq<u8>, SnapV)>) -> Seq<(Seq<u8>, SnapV)>
    decreases m.len(),
{
    if m.len() == 0 {
        Seq::<(Seq<u8>, SnapV)>::empty()
    } else {
        spec_upsert(spec_canon(m.drop_last()), m.last().0, m.last().1)
    }
}

/// Every snapshot of the list holds only well-formed number tokens.
pub open spec fn wf_store(m: Seq<(Seq<u8>, SnapV)>) -> bool {
    forall|i: int| 0 <= i < m.len() ==> wf_snap((#[trigger] m[i]).1)
}

/// After an upsert, the upserted key is bound to the new snapshot.
pub proof fn lemma_upsert_lookup_same(m: Seq<(Seq<u8>, SnapV)>, k: Seq<u8>, v: SnapV)
    ensures
        spec_lookup(spec_upsert(m, k, v), k) == Some(v),
    decreases m.len(),
{
    let u = spec_upsert(m, k, v);
    if m.len() == 0 {
        assert(u[0].0 == k);
    } else if lex_lt(k, m[0].0) {
        assert(u[0].0 == k);
    } else if k == m[0].0 {
        assert(u[0].0 == k);
    } else {
        lemma_upsert_lookup_same(m.skip(1), k, v);
        assert(u[0] == m[0]);
        assert(u.skip(1) =~= spec_upsert(m.skip(1), k, v));
    }
}

/// An upsert leaves every other key's binding unchanged.
pub proof fn lemma_upsert_lookup_other(
    m: Seq<(Seq<u8>, SnapV)>,
    k: Seq<u8>,
    v: SnapV,
    k2: Seq<u8>,
)
    requires
        k2 != k,
    ensures
        spec_lookup(spec_upsert(m, k, v), k2) == spec_lookup(m, k2),
    decreases m.len(),
{
    let u = spec_upsert(m, k, v);
    if m.len() == 0 {
        assert(u[0].0 == k);
        assert(u.skip(1) =~= Seq::<(Seq<u8>, SnapV)>::empty());
        assert(spec_lookup(u, k2) == spec_lookup(u.skip(1), k2));
        assert(spec_lookup(u.skip(1), k2) is None);
    } else if lex_lt(k, m[0].0) {
        assert(u[0].0 == k);
        assert(u.skip(1) =~= m);
        assert(spec_lookup(u, k2) == spec_lookup(m, k2));
    } else if k == m[0].0 {
        assert(u[0].0 == k);
        assert(u.skip(1) =~= m.skip(1));
        assert(spec_lookup(u, k2) == spec_lookup(m.skip(1), k2));
        assert(spec_lookup(m, k2) == spec_lookup(m.skip(1), k2));
    } else {
        lemma_upsert_lookup_other(m.skip(1), k, v, k2);
        assert(u[0] == m[0]);
        assert(u.skip(1) =~= spec_upsert(m.skip(1), k, v));
        if m[0].0 == k2 {
            assert(spec_lookup(u, k2) == Some(m[0].1));
            assert(spec_lookup(m, k2) == Some(m[0].1));
        } else {
            assert(spec_lookup(u, k2) == spec_lookup(spec_upsert(m.skip(1), k, v), k2));
            assert(spec_lookup(m, k2) == spec_lookup(m.skip(1), k2));
        }
    }
}

/// Looking a key up in the canonical form finds exactly what the raw list
/// binds it to last.
pub proof fn lemma_canon_lookup(m: Seq<(Seq<u8>, SnapV)>, k: Seq<u8>)
    ensures
        spec_lookup(spec_canon(m), k) == spec_lookup_latest(m, k),
    decreases m.len(),
{
    if m.len() == 0 {
    } else {
        let c = spec_canon(m.drop_last());
        if m.last().0 == k {
            lemma_upsert_lookup_same(c, m.last().0, m.last().1);
        } else {
            lemma_upsert_lookup_other(c, m.last().0, m.last().1, k);
            lemma_canon_lookup(m.drop_last(), k);
        }
    }
}

/// Upserting a well-formed snapshot keeps the store well-formed.
pub proof fn lemma_upsert_wf(m: Seq<(Seq<u8>, SnapV)>, k: Seq<u8>, v: SnapV)
    requires
        wf_store(m),
        wf_snap(v),
    ensures
        wf_store(spec_upsert(m, k, v)),
    decreases m.len(),
{
    let u = spec_upsert(m, k, v);
    if m.len() == 0 {
    } else if lex_lt(k, m[0].0) {
        assert forall|i: int| 0 <= i < u.len() implies wf_snap((#[trigger] u[i]).1) by {
            if i > 0 {
                assert(u[i] == m[i - 1]);
            }
        }
    } else if k == m[0].0 {
        assert forall|i: int| 0 <= i < u.len() implies wf_snap((#[trigger] u[i]).1) by {
            if i > 0 {
                assert(u[i] == m.skip(1)[i - 1]);
                assert(m.skip(1)[i - 1] == m[i]);
            }
        }
    } else {
        assert(wf_store(m.skip(1))) by {
            assert(forall|i: int| 0 <= i < m.skip(1).len() ==> (#[trigger] m.skip(1)[i]) == m[i
                + 1]);
        }
        lemma_upsert_wf(m.skip(1), k, v);
        let u2 = spec_upsert(m.skip(1), k, v);
        assert forall|i: int| 0 <= i < u.len() implies wf_snap((#[trigger] u[i]).1) by {
            if i == 0 {
                assert(u[0] == m[0]);
            } else {
                assert(u[i] == u2[i - 1]);
            }
        }
    }
}

/// Canonicalizing a well-formed raw list keeps it well-formed.
pub proof fn lemma_canon_wf(m: Seq<(Seq<u8>, SnapV)>)
    requires
        wf_store(m),
    ensures
        wf_store(spec_canon(m)),
    decreases m.len(),
{
    if m.len() > 0 {
        assert(wf_store(m.drop_last())) by {
            assert(forall|i: int| 0 <= i < m.drop_last().len() ==> (#[trigger] m.drop_last()[i])
                == m[i]);
        }
        lemma_canon_wf(m.drop_last());
        assert(wf_snap(m.last().1));
        lemma_upsert_wf(spec_canon(m.drop_last()), m.last().0, m.last().1);
    }
}

/// Replaces the entry with `e`'s key, or inserts `e` at its sorted
/// position.
fn upsert_vec(m: Vec<StoreEntry>, e: StoreEntry) -> (r: Vec<StoreEntry>)
    ensures
        entries_view(r@) == spec_upsert(entries_view(m@), e@.0, e@.1),
    decreases m@.len(),
{
    let ghost mv = entries_view(m@);
    let ghost ev = e@;
    let mut m = m;
    if m.len() == 0 {
        m.push(e);
        proof {
            assert(entries_view(m@) =~= seq![(ev.0, ev.1)]);
            assert(seq![(ev.0, ev.1)] =~= spec_upsert(mv, ev.0, ev.1));
        }
        m
    } else if lex_lt_exec(e.key(), m[0].key()) {
        proof {
            assert(mv[0] == m@[0]@);
        }
        m.insert(0, e);
        proof {
            assert(entries_view(m@) =~= seq![(ev.0, ev.1)] + mv);
        }
        m
    } else if bytes_eq(e.key(), m[0].key()) {
        proof {
            assert(mv[0] == m@[0]@);
        }
        m[0] = e;
        proof {
            assert(entries_view(m@) =~= seq![(ev.0, ev.1)] + mv.skip(1));
        }
        m
    } else {
        proof {
            assert(mv[0] == m@[0]@);
        }
        let head = m.remove(0);
        let ghost headv = head@;
        proof {
            assert(entries_view(m@) =~= mv.skip(1));
        }
        let mut r = upsert_vec(m, e);
        r.insert(0, head);
        proof {
            assert(entries_view(r@) =~= seq![mv[0]] + spec_upsert(mv.skip(1), ev.0, ev.1));
        }
        r
    }
}

/// Folds a raw entry list into its canonical form.
fn canon_vec(m: Vec<StoreEntry>) -> (r: Vec<StoreEntry>)
    ensures
        entries_view(r@) == spec_canon(entries_view(m@)),
{
    let ghost orig = entries_view(m@);
    let mut m = m;
    let mut out: Vec<StoreEntry> = Vec::new();
    let ghost done: int = 0;
    proof {
        assert(entries_view(out@) =~= Seq::<(Seq<u8>, SnapV)>::empty());
        assert(orig.take(0) =~= Seq::<(Seq<u8>, SnapV)>::empty());
        assert(spec_canon(orig.take(0)) =~= entries_view(out@));
        assert(entries_view(m@) =~= orig.skip(0));
    }
    while m.len() > 0
        invariant
            0 <= done <= orig.len(),
            entries_view(m@) == orig.skip(done),
            entries_view(out@) == spec_canon(orig.take(done)),
        decreases m@.len(),
    {
        proof {
            assert(orig.skip(done).len() == orig.len() - done);
        }
        let ghost pre_m = m@;
        let e = m.remove(0);
        let ghost entryv = e@;
        proof {
            assert(entryv == orig.skip(done)[0]);
            assert(entryv == orig[done]);
            assert(m@ =~= pre_m.skip(1));
            assert forall|j: int| 0 <= j < m@.len() implies (#[trigger] entries_view(m@)[j])
                == orig.skip(done + 1)[j] by {
                assert(entries_view(m@)[j] == m@[j]@);
                assert(m@[j] == pre_m[j + 1]);
                assert(entries_view(pre_m)[j + 1] == pre_m[j + 1]@);
                assert(entries_view(pre_m)[j + 1] == orig.skip(done)[j + 1]);
                assert(orig.skip(done)[j + 1] == orig[done + 1 + j]);
                assert(orig.skip(done + 1)[j] == orig[done + 1 + j]);
            }
            assert(entries_view(m@) =~= orig.skip(done + 1));
        }
        out = upsert_vec(out, e);
        proof {
            let t = orig.take(done + 1);
            assert(t.drop_last() =~= orig.take(done));
            assert(t.last() == orig[done]);
            assert(spec_canon(t) == spec_upsert(
                spec_canon(orig.take(done)),
                orig[done].0,
                orig[done].1,
            ));
        }
        proof {
            done = done + 1;
        }
    }
    proof {
        assert(orig.take(done) =~= orig);
    }
    out
}

/// A canonical snapshot store: entries with sorted, unique livery keys.
pub struct Store {
    entries: Vec<StoreEntry>,
}

impl View for Store {
    type V = Seq<(Seq<u8>, SnapV)>;

    closed spec fn view(&self) -> Seq<(Seq<u8>, SnapV)> {
        entries_view(self.entries@)
    }
}

/// The meaning of loading a stored file: the canonical form of its entry
/// list, or absent when the content does not parse.
pub open spec fn spec_load_canon(s: Seq<u8>) -> Option<Seq<(Seq<u8>, SnapV)>> {
    match spec_load(s) {
        Some(m) => Some(spec_canon(m)),
        None => None,
    }
}

/// The store a save starts from: the previous file's canonical entries, or
/// an empty store when the file was missing or did not parse.
pub open spec fn spec_prev(old: Option<Seq<u8>>) -> Seq<(Seq<u8>, SnapV)> {
    match old {
        Some(s) => match spec_load_canon(s) {
            Some(m) => m,
            None => Seq::<(Seq<u8>, SnapV)>::empty(),
        },
        None => Seq::<(Seq<u8>, SnapV)>::empty(),
    }
}

/// The bytes that a save writes: the previous content (absent or
/// unparsable means an empty store) with one entry replaced or inserted,
/// re-encoded.
pub open spec fn spec_save(old: Option<Seq<u8>>, k: Seq<u8>, v: SnapV) -> Seq<u8> {
    ser_store(spec_upsert(spec_prev(old), k, v))
}

impl Store {
    /// A store with no entries.
    pub fn empty() -> (r: Store)
        ensures
            r@ == Seq::<(Seq<u8>, SnapV)>::empty(),
    {
        let entries: Vec<StoreEntry> = Vec::new();
        proof {
            assert(entries_view(entries@) =~= Seq::<(Seq<u8>, SnapV)>::empty());
        }
        Store { entries }
    }

    /// Loads a store from a file's bytes; `None` stands for a missing
    /// file. A file that does not parse loads as absent, never as an
    /// error.
    pub fn load(bytes: Option<&Vec<u8>>) -> (r: Option<Store>)
        ensures
            match bytes {
                None => r is None,
                Some(b) => match r {
                    Some(st) => spec_load_canon(b@) == Some(st@),
                    None => spec_load_canon(b@) is None,
                },
            },
    {
        match bytes {
            None => None,
            Some(b) => match parse_store(b) {
                Some(raw) => Some(Store { entries: canon_vec(raw) }),
                None => None,
            },
        }
    }

    /// The first snapshot bound to `key`, if any.
    pub fn lookup(&self, key: &Vec<u8>) -> (r: Option<&Snapshot>)
        ensures
            match r {
                Some(s) => spec_lookup(self@, key@) == Some(s@),
                None => spec_lookup(self@, key@) is None,
            },
    {
        let n: usize = self.entries.len();
        let mut i: usize = 0;
        proof {
            assert(self@.skip(0) =~= self@);
        }
        while i < n
            invariant
                i <= n,
                n == self.entries@.len(),
                n == self@.len(),
                spec_lookup(self@, key@) == spec_lookup(self@.skip(i as int), key@),
            decreases n - i,
        {
            proof {
                assert(self@.skip(i as int)[0] == self@[i as int]);
                assert(self@[i as int] == self.entries@[i as int]@);
            }
            if bytes_eq(self.entries[i].key(), key) {
                return Some(self.entries[i].snap());
            }
            proof {
                assert(self@.skip(i as int).skip(1) =~= self@.skip(i + 1));
            }
            i = i + 1;
        }
        proof {
            assert(self@.skip(n as int).len() == 0);
        }
        None
    }

    /// Replaces or inserts the entry for `key`.
    pub fn upsert(self, key: Vec<u8>, snap: Snapshot) -> (r: Store)
        ensures
            r@ == spec_upsert(self@, key@, snap@),
    {
        let ghost kv = key@;
        let ghost sv = snap@;
        let e = StoreEntry::new(key, snap);
        Store { entries: upsert_vec(self.entries, e) }
    }

    /// Encodes the store deterministically: same entries, same bytes.
    pub fn to_bytes(&self) -> (r: Vec<u8>)
        ensures
            r@ == ser_store(self@),
    {
        serialize_store(&self.entries)
    }
}

/// The whole read-modify-write of one save: loads the previous content
/// (missing or unparsable content stands for an empty store), binds `key`
/// to `snap`, and encodes the result. No other livery's entry is dropped.
pub fn save_store_bytes(old_bytes: Option<&Vec<u8>>, key: &LiveryKey, snap: Snapshot) -> (r: Vec<
    u8,
>)
    ensures
        r@ == spec_save(
            match old_bytes {
                Some(b) => Some(b@),
                None => None,
            },
            key@,
            snap@,
        ),
{
    let st = match Store::load(old_bytes) {
        Some(st) => st,
        None => Store::empty(),
    };
    let kb = key.as_bytes();
    let key_copy = copy_range(kb, 0, kb.len());
    proof {
        assert(kb@.subrange(0, kb@.len() as int) =~= kb@);
    }
    let st2 = st.upsert(key_copy, snap);
    st2.to_bytes()
}

/// The lexicographic order is irreflexive.
pub proof fn lemma_lex_irrefl(a: Seq<u8>)
    ensures
        !lex_lt(a, a),
    decreases a.len(),
{
    if a.len() > 0 {
        lemma_lex_irrefl(a.skip(1));
    }
}

/// The lexicographic order is asymmetric.
pub proof fn lemma_lex_asym(a: Seq<u8>, b: Seq<u8>)
    requires
        lex_lt(a, b),
    ensures
        !lex_lt(b, a),
    decreases a.len(),
{
    if a.len() > 0 && b.len() > 0 && a[0] == b[0] {
        lemma_lex_asym(a.skip(1), b.skip(1));
    }
}

/// The lexicographic order is transitive.
pub proof fn lemma_lex_trans(a: Seq<u8>, b: Seq<u8>, c: Seq<u8>)
    requires
        lex_lt(a, b),
        lex_lt(b, c),
    ensures
        lex_lt(a, c),
    decreases a.len(),
{
    if a.len() > 0 && b.len() > 0 && c.len() > 0 && a[0] == b[0] && b[0] == c[0] {
        lemma_lex_trans(a.skip(1), b.skip(1), c.skip(1));
    }
}

/// Two distinct byte sequences compare in one direction or the other.
pub proof fn lemma_lex_trichotomy(a: Seq<u8>, b: Seq<u8>)
    requires
        a != b,
    ensures
        lex_lt(a, b) || lex_lt(b, a),
    decreases a.len(),
{
    if b.len() == 0 {
        assert(a.len() > 0) by {
            if a.len() == 0 {
                assert(a =~= b);
            }
        }
        assert(lex_lt(b, a));
    } else if a.len() == 0 {
        assert(lex_lt(a, b));
    } else if a[0] < b[0] {
        assert(lex_lt(a, b));
    } else if a[0] > b[0] {
        assert(lex_lt(b, a));
    } else {
        assert(a.skip(1) != b.skip(1)) by {
            if a.skip(1) == b.skip(1) {
                assert(a.skip(1).len() == a.len() - 1);
                assert(b.skip(1).len() == b.len() - 1);
                assert(a.len() == b.len());
                assert forall|x: int| 0 <= x < a.len() implies a[x] == b[x] by {
                    if x > 0 {
                        assert(a.skip(1)[x - 1] == a[x]);
                        assert(b.skip(1)[x - 1] == b[x]);
                    }
                }
                assert(a =~= b);
            }
        }
        lemma_lex_trichotomy(a.skip(1), b.skip(1));
        assert(lex_lt(a, b) == lex_lt(a.skip(1), b.skip(1)));
        assert(lex_lt(b, a) == lex_lt(b.skip(1), a.skip(1)));
    }
}

/// Keys strictly ascend along the list.
pub open spec fn sorted_keys(m: Seq<(Seq<u8>, SnapV)>) -> bool {
    forall|i: int, j: int| 0 <= i < j < m.len() ==> lex_lt(m[i].0, m[j].0)
}

/// Every key of an upsert's result is the upserted key or one of the
/// list's own keys.
pub proof fn lemma_upsert_keys(m: Seq<(Seq<u8>, SnapV)>, k: Seq<u8>, v: SnapV)
    ensures
        forall|t: int|
            0 <= t < spec_upsert(m, k, v).len() ==> ((#[trigger] spec_upsert(m, k, v)[t]).0 == k
                || exists|q: int| 0 <= q < m.len() && (#[trigger] m[q]).0 == spec_upsert(m, k, v)[t].0),
    decreases m.len(),
{
    let u = spec_upsert(m, k, v);
    if m.len() == 0 {
    } else if lex_lt(k, m[0].0) {
        assert forall|t: int| 0 <= t < u.len() implies ((#[trigger] u[t]).0 == k || exists|q: int|
            0 <= q < m.len() && (#[trigger] m[q]).0 == u[t].0) by {
            if t > 0 {
                assert(u[t] == m[t - 1]);
                assert(m[t - 1].0 == u[t].0);
            }
        }
    } else if k == m[0].0 {
        assert forall|t: int| 0 <= t < u.len() implies ((#[trigger] u[t]).0 == k || exists|q: int|
            0 <= q < m.len() && (#[trigger] m[q]).0 == u[t].0) by {
            if t > 0 {
                assert(u[t] == m.skip(1)[t - 1]);
                assert(m[t].0 == u[t].0);
            }
        }
    } else {
        lemma_upsert_keys(m.skip(1), k, v);
        let u2 = spec_upsert(m.skip(1), k, v);
        assert forall|t: int| 0 <= t < u.len() implies ((#[trigger] u[t]).0 == k || exists|q: int|
            0 <= q < m.len() && (#[trigger] m[q]).0 == u[t].0) by {
            if t == 0 {
                assert(u[0] == m[0]);
                assert(m[0].0 == u[0].0);
            } else {
                assert(u[t] == u2[t - 1]);
                if u2[t - 1].0 == k {
                } else {
                    let q = choose|q: int| 0 <= q < m.skip(1).len() && (#[trigger] m.skip(1)[q]).0
                        == u2[t - 1].0;
                    assert(m[q + 1].0 == u[t].0);
                }
            }
        }
    }
}

/// An upsert into a sorted list stays sorted.
pub proof fn lemma_upsert_sorted(m: Seq<(Seq<u8>, SnapV)>, k: Seq<u8>, v: SnapV)
    requires
        sorted_keys(m),
    ensures
        sorted_keys(spec_upsert(m, k, v)),
    decreases m.len(),
{
    let u = spec_upsert(m, k, v);
    if m.len() == 0 {
    } else if lex_lt(k, m[0].0) {
        assert forall|i: int, j: int| 0 <= i < j < u.len() implies lex_lt(u[i].0, u[j].0) by {
            if i == 0 {
                assert(u[j] == m[j - 1]);
                if j == 1 {
                } else {
                    lemma_lex_trans(k, m[0].0, m[j - 1].0);
                }
            } else {
                assert(u[i] == m[i - 1]);
                assert(u[j] == m[j - 1]);
            }
        }
    } else if k == m[0].0 {
        assert forall|i: int, j: int| 0 <= i < j < u.len() implies lex_lt(u[i].0, u[j].0) by {
            if i == 0 {
                assert(u[j] == m.skip(1)[j - 1]);
                assert(m.skip(1)[j - 1] == m[j]);
            } else {
                assert(u[i] == m[i]);
                assert(u[j] == m[j]);
            }
        }
    } else {
        assert(sorted_keys(m.skip(1))) by {
            assert(forall|i: int| 0 <= i < m.skip(1).len() ==> (#[trigger] m.skip(1)[i]) == m[i
                + 1]);
        }
        lemma_upsert_sorted(m.skip(1), k, v);
        lemma_upsert_keys(m.skip(1), k, v);
        lemma_lex_trichotomy(k, m[0].0);
        assert(lex_lt(m[0].0, k));
        let u2 = spec_upsert(m.skip(1), k, v);
        assert forall|i: int, j: int| 0 <= i < j < u.len() implies lex_lt(u[i].0, u[j].0) by {
            if i == 0 {
                assert(u[0] == m[0]);
                assert(u[j] == u2[j - 1]);
                if u2[j - 1].0 == k {
                } else {
                    let q = choose|q: int| 0 <= q < m.skip(1).len() && (#[trigger] m.skip(1)[q]).0
                        == u2[j - 1].0;
                    assert(m.skip(1)[q] == m[q + 1]);
                    assert(lex_lt(m[0].0, m[q + 1].0));
                }
            } else {
                assert(u[i] == u2[i - 1]);
                assert(u[j] == u2[j - 1]);
            }
        }
    }
}

/// The canonical form of any raw list is sorted.
pub proof fn lemma_canon_sorted(m: Seq<(Seq<u8>, SnapV)>)
    ensures
        sorted_keys(spec_canon(m)),
    decreases m.len(),
{
    if m.len() > 0 {
        lemma_canon_sorted(m.drop_last());
        lemma_upsert_sorted(spec_canon(m.drop_last()), m.last().0, m.last().1);
    }
}

/// Upserting a key greater than every key of the list appends the entry.
pub proof fn lemma_upsert_append(m: Seq<(Seq<u8>, SnapV)>, k: Seq<u8>, v: SnapV)
    requires
        forall|i: int| 0 <= i < m.len() ==> lex_lt((#[trigger] m[i]).0, k),
    ensures
        spec_upsert(m, k, v) == m.push((k, v)),
    decreases m.len(),
{
    if m.len() == 0 {
        assert(spec_upsert(m, k, v) =~= m.push((k, v)));
    } else {
        assert(lex_lt(m[0].0, k));
        lemma_lex_asym(m[0].0, k);
        assert(k != m[0].0) by {
            if k == m[0].0 {
                lemma_lex_irrefl(k);
            }
        }
        assert(forall|i: int| 0 <= i < m.skip(1).len() ==> lex_lt((#[trigger] m.skip(1)[i]).0, k))
            by {
            assert(forall|i: int| 0 <= i < m.skip(1).len() ==> (#[trigger] m.skip(1)[i]) == m[i
                + 1]);
        }
        lemma_upsert_append(m.skip(1), k, v);
        assert(spec_upsert(m, k, v) =~= m.push((k, v)));
    }
}

/// Canonicalizing a sorted list changes nothing.
pub proof fn lemma_canon_id_sorted(m: Seq<(Seq<u8>, SnapV)>)
    requires
        sorted_keys(m),
    ensures
        spec_canon(m) == m,
    decreases m.len(),
{
    if m.len() > 0 {
        assert(sorted_keys(m.drop_last())) by {
            assert(forall|i: int| 0 <= i < m.drop_last().len() ==> (#[trigger] m.drop_last()[i])
                == m[i]);
        }
        lemma_canon_id_sorted(m.drop_last());
        assert(forall|i: int| 0 <= i < m.drop_last().len() ==> lex_lt(
            (#[trigger] m.drop_last()[i]).0,
            m.last().0,
        )) by {
            assert(forall|i: int| 0 <= i < m.drop_last().len() ==> (#[trigger] m.drop_last()[i])
                == m[i]);
        }
        lemma_upsert_append(m.drop_last(), m.last().0, m.last().1);
        assert(m.drop_last().push(m.last()) =~= m);
    }
}

} // verus!
