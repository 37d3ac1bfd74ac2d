//! Livery identity: a normalized key derived from the host-reported livery
//! path. The key is the lower-cased final path component, or the sentinel
//! `Default` when the host reports an empty path (or one made of separators
//! only). Two keys denote the same livery exactly when their byte views are
//! equal.

use vstd::prelude::*;

use crate::bytes::bytes_eq;

verus! {

/// Path separator bytes recognized in host-reported livery paths.
pub open spec fn is_sep(b: u8) -> bool {
    b == 47 || b == 92
}

/// ASCII lower-casing of one byte; other bytes are kept as they are.
pub open spec fn to_lower(b: u8) -> u8 {
    if 65 <= b && b <= 90 {
        (b + 32) as u8
    } else {
        b
    }
}

/// ASCII lower-casing of a byte sequence.
pub open spec fn lower_seq(s: Seq<u8>) -> Seq<u8> {
    s.map_values(|b: u8| to_lower(b))
}

/// The sequence with trailing separator bytes removed.
pub open spec fn strip_trailing_seps(s: Seq<u8>) -> Seq<u8>
    decreases s.len(),
{
    if s.len() > 0 && is_sep(s.last()) {
        strip_trailing_seps(s.drop_last())
    } else {
        s
    }
}

/// The final path component: everything after the last separator byte.
pub open spec fn leaf(s: Seq<u8>) -> Seq<u8>
    decreases s.len(),
{
    if s.len() == 0 {
        s
    } else if is_sep(s.last()) {
        Seq::<u8>::empty()
    } else {
        leaf(s.drop_last()).push(s.last())
    }
}

/// The sentinel key used when the host reports no livery path: the bytes of
/// `Default`.
pub open spec fn default_key() -> Seq<u8> {
    seq![68u8, 101u8, 102u8, 97u8, 117u8, 108u8, 116u8]
}

/// Normalized livery key of a host-reported path: the lower-cased final
/// component of the path with trailing separators ignored, or the sentinel
/// when no component is left.
pub open spec fn normalize(path: Seq<u8>) -> Seq<u8> {
    let l = leaf(strip_trailing_seps(path));
    if l.len() == 0 {
        default_key()
    } else {
        lower_seq(l)
    }
}

/// A normalized identity for "which livery is active".
pub struct LiveryKey {
    bytes: Vec<u8>,
}

impl View for LiveryKey {
    type V = Seq<u8>;

    closed spec fn view(&self) -> Seq<u8> {
        self.bytes@
    }
}

proof fn lemma_leaf_window(s: Seq<u8>, i: int, j: int)
    requires
        0 <= i <= j <= s.len(),
        forall|k: int| i <= k < j ==> !is_sep(s[k]),
        i == 0 || is_sep(s[i - 1]),
    ensures
        leaf(s.subrange(0, j)) == s.subrange(i, j),
    decreases j - i,
{
    if j == i {
        if i == 0 {
            assert(s.subrange(0, 0) =~= Seq::<u8>::empty());
            assert(s.subrange(i, j) =~= Seq::<u8>::empty());
        } else {
            let t = s.subrange(0, j);
            assert(t.last() == s[i - 1]);
            assert(s.subrange(i, j) =~= Seq::<u8>::empty());
        }
    } else {
        let t = s.subrange(0, j);
        assert(t.last() == s[j - 1]);
        assert(!is_sep(t.last()));
        assert(t.drop_last() =~= s.subrange(0, j - 1));
        lemma_leaf_window(s, i, j - 1);
        assert(leaf(s.subrange(0, j - 1)).push(s[j - 1]) =~= s.subrange(i, j));
    }
}

impl LiveryKey {
    /// Derives the key for the given host-reported livery path.
    pub fn from_path(path: &Vec<u8>) -> (r: LiveryKey)
        ensures
            r@ == normalize(path@),
    {
        let n: usize = path.len();
        // Strip trailing separators.
        let mut j: usize = n;
        proof {
            assert(path@.subrange(0, n as int) =~= path@);
        }
        while j > 0 && (path[j - 1] == 47 || path[j - 1] == 92)
            invariant
                j <= n,
                n == path@.len(),
                strip_trailing_seps(path@) == strip_trailing_seps(path@.subrange(0, j as int)),
            decreases j,
        {
            proof {
                let t = path@.subrange(0, j as int);
                assert(t.last() == path@[j - 1]);
                assert(t.drop_last() =~= path@.subrange(0, j - 1));
            }
            j = j - 1;
        }
        proof {
            let t = path@.subrange(0, j as int);
            if j > 0 {
                assert(t.last() == path@[j - 1]);
            }
            assert(strip_trailing_seps(t) == t);
        }
        // Find the start of the final component.
        let mut i: usize = j;
        while i > 0 && path[i - 1] != 47 && path[i - 1] != 92
            invariant
                i <= j <= n,
                n == path@.len(),
                forall|k: int| i <= k < j ==> !is_sep(path@[k]),
            decreases i,
        {
            i = i - 1;
        }
        proof {
            lemma_leaf_window(path@, i as int, j as int);
        }
        if i == j {
            // No component is left: the sentinel key, the bytes of `Default`.
            let bytes: Vec<u8> = vec![68u8, 101u8, 102u8, 97u8, 117u8, 108u8, 116u8];
            proof {
                assert(path@.subrange(i as int, j as int).len() == 0);
                assert(bytes@ =~= default_key());
            }
            LiveryKey { bytes }
        } else {
            // Lower-case the component.
            let mut bytes: Vec<u8> = Vec::new();
            let mut k: usize = i;
            while k < j
                invariant
                    i <= k <= j <= n,
                    n == path@.len(),
                    bytes@ == lower_seq(path@.subrange(i as int, k as int)),
                decreases j - k,
            {
                let b = path[k];
                let lb: u8 = if 65 <= b && b <= 90 {
                    b + 32
                } else {
                    b
                };
                bytes.push(lb);
                proof {
                    assert(lower_seq(path@.subrange(i as int, k + 1)) =~= lower_seq(
                        path@.subrange(i as int, k as int),
                    ).push(to_lower(path@[k as int])));
                }
                k = k + 1;
            }
            proof {
                assert(lower_seq(path@.subrange(i as int, j as int)).len() > 0);
            }
            LiveryKey { bytes }
        }
    }

    /// A copy of this key.
    pub fn duplicate(&self) -> (r: LiveryKey)
        ensures
            r@ == self@,
    {
        LiveryKey { bytes: crate::bytes::clone_bytes(&self.bytes) }
    }

    /// The key's normalized byte form.
    pub fn as_bytes(&self) -> (r: &Vec<u8>)
        ensures
            r@ == self@,
    {
        &self.bytes
    }

    /// Two keys denote the same livery exactly when their normalized forms
    /// are equal.
    pub fn key_eq(&self, other: &LiveryKey) -> (r: bool)
        ensures
            r == (self@ == other@),
    {
        bytes_eq(&self.bytes, &other.bytes)
    }
}

} // verus!
