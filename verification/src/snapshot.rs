//! The persisted unit of configuration: fuel quantity per tank and four
//! equipment-switch positions, each kept as a textual number token. A
//! snapshot is immutable once built, and every token it holds is a
//! well-formed number token.

use vstd::prelude::*;

use crate::numtok::{is_number_token, is_number_token_exec};

verus! {

/// Mathematical model of a snapshot: the exact number tokens per field.
#[verifier::ext_equal]
pub ghost struct SnapV {
    /// Quantity per fuel tank, in tank order.
    pub fuel: Seq<Seq<u8>>,
    /// Equipment-switch positions; `0.0` tokens when absent from storage.
    pub autobrake: Seq<u8>,
    pub autothrottle: Seq<u8>,
    pub hf_antenna: Seq<u8>,
    pub navigation: Seq<u8>,
}

/// Every token of the snapshot is a well-formed number token.
pub open spec fn wf_snap(v: SnapV) -> bool {
    &&& forall|k: int| 0 <= k < v.fuel.len() ==> is_number_token(#[trigger] v.fuel[k])
    &&& is_number_token(v.autobrake)
    &&& is_number_token(v.autothrottle)
    &&& is_number_token(v.hf_antenna)
    &&& is_number_token(v.navigation)
}

/// A saved configuration snapshot.
pub struct Snapshot {
    fuel: Vec<Vec<u8>>,
    autobrake: Vec<u8>,
    autothrottle: Vec<u8>,
    hf_antenna: Vec<u8>,
    navigation: Vec<u8>,
}

impl View for Snapshot {
    type V = SnapV;

    closed spec fn view(&self) -> SnapV {
        SnapV {
            fuel: self.fuel.deep_view(),
            autobrake: self.autobrake@,
            autothrottle: self.autothrottle@,
            hf_antenna: self.hf_antenna@,
            navigation: self.navigation@,
        }
    }
}

impl Snapshot {
    /// Every snapshot value holds only well-formed number tokens.
    #[verifier::type_invariant]
    pub open spec fn type_inv(self) -> bool {
        wf_snap(self.view())
    }

    /// Builds a snapshot from its tokens, validating each one. Returns
    /// `None` exactly when some token is not a well-formed number token.
    pub fn new(
        fuel: Vec<Vec<u8>>,
        autobrake: Vec<u8>,
        autothrottle: Vec<u8>,
        hf_antenna: Vec<u8>,
        navigation: Vec<u8>,
    ) -> (r: Option<Snapshot>)
        ensures
            r is Some <==> wf_snap(
                SnapV {
                    fuel: fuel.deep_view(),
                    autobrake: autobrake@,
                    autothrottle: autothrottle@,
                    hf_antenna: hf_antenna@,
                    navigation: navigation@,
                },
            ),
            match r {
                Some(s) => s@ == SnapV {
                    fuel: fuel.deep_view(),
                    autobrake: autobrake@,
                    autothrottle: autothrottle@,
                    hf_antenna: hf_antenna@,
                    navigation: navigation@,
                },
                None => true,
            },
    {
        let n: usize = fuel.len();
        let mut k: usize = 0;
        while k < n
            invariant
                k <= n,
                n == fuel.deep_view().len(),
                n == fuel@.len(),
                forall|j: int| 0 <= j < k ==> is_number_token(#[trigger] fuel.deep_view()[j]),
            decreases n - k,
        {
            if !is_number_token_exec(&fuel[k]) {
                proof {
                    let v = SnapV {
                        fuel: fuel.deep_view(),
                        autobrake: autobrake@,
                        autothrottle: autothrottle@,
                        hf_antenna: hf_antenna@,
                        navigation: navigation@,
                    };
                    assert(v.fuel[k as int] == fuel@[k as int]@);
                    assert(!is_number_token(v.fuel[k as int]));
                    assert(!wf_snap(v));
                }
                return None;
            }
            proof {
                assert(fuel.deep_view()[k as int] == fuel@[k as int]@);
            }
            k = k + 1;
        }
        if !is_number_token_exec(&autobrake) {
            return None;
        }
        if !is_number_token_exec(&autothrottle) {
            return None;
        }
        if !is_number_token_exec(&hf_antenna) {
            return None;
        }
        if !is_number_token_exec(&navigation) {
            return None;
        }
        Some(
            Snapshot {
                fuel,
                autobrake,
                autothrottle,
                hf_antenna,
                navigation,
            },
        )
    }

    /// The fuel tokens, one per tank.
    pub fn fuel(&self) -> (r: &Vec<Vec<u8>>)
        ensures
            r.deep_view() == self@.fuel,
    {
        &self.fuel
    }

    /// The autobrake switch token.
    pub fn autobrake(&self) -> (r: &Vec<u8>)
        ensures
            r@ == self@.autobrake,
    {
        &self.autobrake
    }

    /// The autothrottle switch token.
    pub fn autothrottle(&self) -> (r: &Vec<u8>)
        ensures
            r@ == self@.autothrottle,
    {
        &self.autothrottle
    }

    /// The high-frequency antenna switch token.
    pub fn hf_antenna(&self) -> (r: &Vec<u8>)
        ensures
            r@ == self@.hf_antenna,
    {
        &self.hf_antenna
    }

    /// The navigation switch token.
    pub fn navigation(&self) -> (r: &Vec<u8>)
        ensures
            r@ == self@.navigation,
    {
        &self.navigation
    }
}

/// One stored record: a snapshot keyed by the livery it belongs to.
pub struct StoreEntry {
    key: Vec<u8>,
    snap: Snapshot,
}

impl View for StoreEntry {
    type V = (Seq<u8>, SnapV);

    closed spec fn view(&self) -> (Seq<u8>, SnapV) {
        (self.key@, self.snap@)
    }
}

impl StoreEntry {
    /// Builds an entry from a key and a snapshot.
    pub fn new(key: Vec<u8>, snap: Snapshot) -> (r: StoreEntry)
        ensures
            r@ == (key@, snap@),
    {
        StoreEntry { key, snap }
    }

    /// The livery key of this entry.
    pub fn key(&self) -> (r: &Vec<u8>)
        ensures
            r@ == self@.0,
    {
        &self.key
    }

    /// The snapshot of this entry.
    pub fn snap(&self) -> (r: &Snapshot)
        ensures
            r@ == self@.1,
    {
        &self.snap
    }
}

/// The model of a list of stored records.
pub open spec fn entries_view(v: Seq<StoreEntry>) -> Seq<(Seq<u8>, SnapV)> {
    v.map_values(|e: StoreEntry| e@)
}

} // verus!
