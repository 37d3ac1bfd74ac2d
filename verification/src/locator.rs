//! Where the store lives on disk: a fixed output root and a per-model
//! subdirectory, chosen from a small table of supported aircraft models,
//! ending in a fixed file name. One shared file holds every livery's
//! record, so the livery key selects an entry inside the file rather than
//! a directory of its own.

use vstd::prelude::*;

use crate::bytes::{bytes_eq_lit, copy_range};
use crate::PluginError;

verus! {

/// The model identity as the host reports it: the model's file name and
/// the directory it was loaded from.
pub struct AircraftModel {
    out_file: Vec<u8>,
    out_path: Vec<u8>,
}

impl View for AircraftModel {
    type V = (Seq<u8>, Seq<u8>);

    closed spec fn view(&self) -> (Seq<u8>, Seq<u8>) {
        (self.out_file@, self.out_path@)
    }
}

/// The position of the last dot of `s`, or a negative value when `s` has
/// none.
pub open spec fn last_dot(s: Seq<u8>) -> int
    decreases s.len(),
{
    if s.len() == 0 {
        -1
    } else if s.last() == 46 {
        s.len() - 1
    } else {
        last_dot(s.drop_last())
    }
}

/// The file name without its extension; a name whose only dot leads it, or
/// that has no dot, stays whole.
pub open spec fn stem_of(s: Seq<u8>) -> Seq<u8> {
    if last_dot(s) > 0 {
        s.take(last_dot(s))
    } else {
        s
    }
}

/// The bytes of the model file stem `Boeing_720`.
pub open spec fn model_720() -> Seq<u8> {
    seq![66u8, 111u8, 101u8, 105u8, 110u8, 103u8, 95u8, 55u8, 50u8, 48u8]
}

/// The bytes of the model file stem `Boeing_720B`.
pub open spec fn model_720b() -> Seq<u8> {
    seq![66u8, 111u8, 101u8, 105u8, 110u8, 103u8, 95u8, 55u8, 50u8, 48u8, 66u8]
}

/// The engine only activates for models it has been validated against.
pub open spec fn supported_model(stem: Seq<u8>) -> bool {
    stem == model_720() || stem == model_720b()
}

/// The shared store file for the `Boeing_720` model:
/// `Output/B720/720/persistent-loadout.json`.
pub open spec fn path_720() -> Seq<u8> {
    seq![
        79u8,
        117u8,
        116u8,
        112u8,
        117u8,
        116u8,
        47u8,
        66u8,
        55u8,
        50u8,
        48u8,
        47u8,
        55u8,
        50u8,
        48u8,
        47u8,
        112u8,
        101u8,
        114u8,
        115u8,
        105u8,
        115u8,
        116u8,
        101u8,
        110u8,
        116u8,
        45u8,
        108u8,
        111u8,
        97u8,
        100u8,
        111u8,
        117u8,
        116u8,
        46u8,
        106u8,
        115u8,
        111u8,
        110u8,
    ]
}

/// The shared store file for the `Boeing_720B` model:
/// `Output/B720/720B/persistent-loadout.json`.
pub open spec fn path_720b() -> Seq<u8> {
    seq![
        79u8,
        117u8,
        116u8,
        112u8,
        117u8,
        116u8,
        47u8,
        66u8,
        55u8,
        50u8,
        48u8,
        47u8,
        55u8,
        50u8,
        48u8,
        66u8,
        47u8,
        112u8,
        101u8,
        114u8,
        115u8,
        105u8,
        115u8,
        116u8,
        101u8,
        110u8,
        116u8,
        45u8,
        108u8,
        111u8,
        97u8,
        100u8,
        111u8,
        117u8,
        116u8,
        46u8,
        106u8,
        115u8,
        111u8,
        110u8,
    ]
}

/// The storage location of a supported model's shared store file.
pub open spec fn spec_storage_location(stem: Seq<u8>) -> Seq<u8> {
    if stem == model_720() {
        path_720()
    } else {
        path_720b()
    }
}

impl AircraftModel {
    /// Builds the identity from the host-reported model file name and
    /// directory.
    pub fn new(out_file: Vec<u8>, out_path: Vec<u8>) -> (r: AircraftModel)
        ensures
            r@ == (out_file@, out_path@),
    {
        AircraftModel { out_file, out_path }
    }

    /// The model file name as reported.
    pub fn out_file(&self) -> (r: &Vec<u8>)
        ensures
            r@ == self@.0,
    {
        &self.out_file
    }

    /// The model's directory as reported.
    pub fn out_path(&self) -> (r: &Vec<u8>)
        ensures
            r@ == self@.1,
    {
        &self.out_path
    }

    /// The model file name without its extension.
    pub fn out_file_stem(&self) -> (r: Vec<u8>)
        ensures
            r@ == stem_of(self@.0),
    {
        let s = &self.out_file;
        let n: usize = s.len();
        let mut j: usize = n;
        proof {
            assert(s@.subrange(0, n as int) =~= s@);
        }
        while j > 0 && s[j - 1] != 46
            invariant
                j <= n,
                n == s@.len(),
                last_dot(s@) == last_dot(s@.subrange(0, j as int)),
            decreases j,
        {
            proof {
                let t = s@.subrange(0, j as int);
                assert(t.last() == s@[j - 1]);
                assert(t.drop_last() =~= s@.subrange(0, j - 1));
            }
            j = j - 1;
        }
        if j > 1 {
            proof {
                let t = s@.subrange(0, j as int);
                assert(t.last() == s@[j - 1]);
                assert(last_dot(s@) == j - 1);
                assert(s@.take(j - 1) =~= s@.subrange(0, j - 1));
            }
            copy_range(s, 0, j - 1)
        } else {
            proof {
                let t = s@.subrange(0, j as int);
                if j == 1 {
                    assert(t.last() == s@[0]);
                    assert(last_dot(s@) == 0);
                } else {
                    assert(t.len() == 0);
                    assert(last_dot(s@) == -1);
                }
            }
            let r = copy_range(s, 0, n);
            proof {
                assert(s@.subrange(0, n as int) =~= s@);
            }
            r
        }
    }
}

/// The location of the shared store file for this model. Models outside
/// the validated set are refused: the engine stays inactive for them.
pub fn storage_location(model: &AircraftModel) -> (r: Result<Vec<u8>, PluginError>)
    ensures
        match r {
            Ok(p) => supported_model(stem_of(model@.0)) && p@ == spec_storage_location(
                stem_of(model@.0),
            ),
            Err(e) => !supported_model(stem_of(model@.0)) && (e matches
            PluginError::UnsupportedAircraft(n) && n@ == stem_of(model@.0)),
        },
{
    let stem = model.out_file_stem();
    let lit720: [u8; 10] = [66u8, 111u8, 101u8, 105u8, 110u8, 103u8, 95u8, 55u8, 50u8, 48u8];
    let lit720b: [u8; 11] = [
        66u8,
        111u8,
        101u8,
        105u8,
        110u8,
        103u8,
        95u8,
        55u8,
        50u8,
        48u8,
        66u8,
    ];
    proof {
        assert(lit720@ =~= model_720());
        assert(lit720b@ =~= model_720b());
    }
    if bytes_eq_lit(&stem, &lit720) {
        let p: Vec<u8> = vec![
            79u8, 117u8, 116u8, 112u8, 117u8, 116u8, 47u8, 66u8, 55u8, 50u8, 48u8, 47u8, 55u8,
            50u8, 48u8, 47u8, 112u8, 101u8, 114u8, 115u8, 105u8, 115u8, 116u8, 101u8, 110u8,
            116u8, 45u8, 108u8, 111u8, 97u8, 100u8, 111u8, 117u8, 116u8, 46u8, 106u8, 115u8,
            111u8, 110u8,
        ];
        proof {
            assert(p@ =~= path_720());
        }
        Ok(p)
    } else if bytes_eq_lit(&stem, &lit720b) {
        let p: Vec<u8> = vec![
            79u8, 117u8, 116u8, 112u8, 117u8, 116u8, 47u8, 66u8, 55u8, 50u8, 48u8, 47u8, 55u8,
            50u8, 48u8, 66u8, 47u8, 112u8, 101u8, 114u8, 115u8, 105u8, 115u8, 116u8, 101u8,
            110u8, 116u8, 45u8, 108u8, 111u8, 97u8, 100u8, 111u8, 117u8, 116u8, 46u8, 106u8,
            115u8, 111u8, 110u8,
        ];
        proof {
            assert(p@ =~= path_720b());
        }
        Ok(p)
    } else {
        Err(PluginError::UnsupportedAircraft(stem))
    }
}

} // verus!
