//! The compute side of the live-state bridge. Reading builds a snapshot
//! from the cell values the host handed over; writing plans exactly which
//! cells to set. The equipment switches live at fixed indices of one shared
//! host array; fuel and equipment are independent: a host switch array too
//! short for the highest index skips the equipment writes but never the
//! fuel writes.

use vstd::prelude::*;

use crate::bytes::clone_bytes;
use crate::numtok::{default_token, default_token_exec};
use crate::snapshot::{wf_snap, SnapV, Snapshot};

verus! {

/// Index of the autothrottle switch in the shared equipment array.
pub const AUTOTHROTTLE_INDEX: usize = 49;

/// Index of the autobrake switch in the shared equipment array.
pub const AUTOBRAKE_INDEX: usize = 50;

/// Index of the high-frequency antenna switch in the shared equipment
/// array.
pub const HF_ANTENNA_INDEX: usize = 56;

/// Index of the navigation switch in the shared equipment array.
pub const NAVIGATION_INDEX: usize = 84;

/// How many cells the equipment array must expose for indexed writes: one
/// past the highest index used.
pub const MIN_SWITCH_CELLS: usize = 85;

/// The switch value at `idx`, or the default token when the host array is
/// shorter.
pub open spec fn switch_or_default(sw: Seq<Seq<u8>>, idx: int) -> Seq<u8> {
    if idx < sw.len() {
        sw[idx]
    } else {
        default_token()
    }
}

/// The snapshot that a read of the live state yields: all fuel tokens, and
/// the four switch tokens picked out of the shared array (defaulting when
/// the array is shorter).
pub open spec fn spec_from_live(fuel: Seq<Seq<u8>>, switches: Seq<Seq<u8>>) -> SnapV {
    SnapV {
        fuel: fuel,
        autobrake: switch_or_default(switches, AUTOBRAKE_INDEX as int),
        autothrottle: switch_or_default(switches, AUTOTHROTTLE_INDEX as int),
        hf_antenna: switch_or_default(switches, HF_ANTENNA_INDEX as int),
        navigation: switch_or_default(switches, NAVIGATION_INDEX as int),
    }
}

/// Builds a snapshot from live cell values: every fuel token, and the four
/// switch positions from their fixed indices. Returns `None` exactly when
/// some involved token is not a well-formed number token.
pub fn snapshot_from_live(fuel: Vec<Vec<u8>>, switches: &Vec<Vec<u8>>) -> (r: Option<Snapshot>)
    ensures
        r is Some <==> wf_snap(spec_from_live(fuel.deep_view(), switches.deep_view())),
        match r {
            Some(s) => s@ == spec_from_live(fuel.deep_view(), switches.deep_view()),
            None => true,
        },
{
    let ab = pick_switch(switches, AUTOBRAKE_INDEX);
    let at = pick_switch(switches, AUTOTHROTTLE_INDEX);
    let hf = pick_switch(switches, HF_ANTENNA_INDEX);
    let nav = pick_switch(switches, NAVIGATION_INDEX);
    Snapshot::new(fuel, ab, at, hf, nav)
}

/// The switch token at `idx`, or the default token when the array is
/// shorter.
fn pick_switch(switches: &Vec<Vec<u8>>, idx: usize) -> (r: Vec<u8>)
    ensures
        r@ == switch_or_default(switches.deep_view(), idx as int),
{
    if idx < switches.len() {
        let r = clone_bytes(&switches[idx]);
        proof {
            assert(switches.deep_view()[idx as int] =~= switches@[idx as int]@);
        }
        r
    } else {
        default_token_exec()
    }
}

/// One planned set of live-state writes: fuel values for a prefix of the
/// host's fuel array, and equipment values at fixed indices of the switch
/// array. The host array is never resized: indices beyond it are never
/// planned.
pub struct RestorePlan {
    /// One token per fuel tank, to write at indices `0..fuel.len()`.
    pub fuel: Vec<Vec<u8>>,
    /// Pairs of switch index and token to write there.
    pub switches: Vec<(usize, Vec<u8>)>,
}

/// The four equipment writes of a snapshot, in index order.
pub open spec fn spec_switch_writes(v: SnapV) -> Seq<(usize, Seq<u8>)> {
    seq![
        (AUTOTHROTTLE_INDEX, v.autothrottle),
        (AUTOBRAKE_INDEX, v.autobrake),
        (HF_ANTENNA_INDEX, v.hf_antenna),
        (NAVIGATION_INDEX, v.navigation),
    ]
}

/// Plans the writes that restore `snap` into a host whose fuel array holds
/// `host_fuel_len` cells and whose equipment array holds `host_switch_len`
/// cells: the overlapping prefix of the fuel values, never more than the
/// host holds; and the four switch writes exactly when the equipment array
/// reaches the highest used index, none otherwise — a short equipment
/// array skips the equipment writes but not the fuel writes.
pub fn restore_plan(snap: &Snapshot, host_fuel_len: usize, host_switch_len: usize) -> (r:
    RestorePlan)
    ensures
        r.fuel.deep_view() == snap@.fuel.take(
            if host_fuel_len < snap@.fuel.len() {
                host_fuel_len as int
            } else {
                snap@.fuel.len() as int
            },
        ),
        r.fuel@.len() <= host_fuel_len,
        host_switch_len < MIN_SWITCH_CELLS ==> r.switches@.len() == 0,
        host_switch_len >= MIN_SWITCH_CELLS ==> r.switches.deep_view() == spec_switch_writes(
            snap@,
        ),
        forall|x: int| 0 <= x < r.switches@.len() ==> (#[trigger] r.switches@[x]).0
            < host_switch_len,
{
    let src_fuel = snap.fuel();
    let n: usize = if host_fuel_len < src_fuel.len() {
        host_fuel_len
    } else {
        src_fuel.len()
    };
    let mut fuel: Vec<Vec<u8>> = Vec::new();
    let mut i: usize = 0;
    proof {
        assert(fuel.deep_view() =~= snap@.fuel.take(0));
    }
    while i < n
        invariant
            i <= n,
            n <= src_fuel@.len(),
            n <= host_fuel_len,
            src_fuel.deep_view() == snap@.fuel,
            n as int == if host_fuel_len < snap@.fuel.len() {
                host_fuel_len as int
            } else {
                snap@.fuel.len() as int
            },
            fuel.deep_view() == snap@.fuel.take(i as int),
            fuel@.len() == i,
        decreases n - i,
    {
        let tok = clone_bytes(&src_fuel[i]);
        let ghost tokv = tok@;
        proof {
            assert(tok.deep_view() =~= tokv);
            assert(tokv == src_fuel@[i as int]@);
            assert(snap@.fuel[i as int] == src_fuel.deep_view()[i as int]);
        }
        fuel.push(tok);
        proof {
            assert(fuel.deep_view() =~= snap@.fuel.take(i + 1));
        }
        i = i + 1;
    }
    let mut switches: Vec<(usize, Vec<u8>)> = Vec::new();
    if host_switch_len >= MIN_SWITCH_CELLS {
        let at_tok = clone_bytes(snap.autothrottle());
        let ab_tok = clone_bytes(snap.autobrake());
        let hf_tok = clone_bytes(snap.hf_antenna());
        let nav_tok = clone_bytes(snap.navigation());
        proof {
            assert(at_tok.deep_view() =~= snap@.autothrottle);
            assert(ab_tok.deep_view() =~= snap@.autobrake);
            assert(hf_tok.deep_view() =~= snap@.hf_antenna);
            assert(nav_tok.deep_view() =~= snap@.navigation);
        }
        switches.push((AUTOTHROTTLE_INDEX, at_tok));
        switches.push((AUTOBRAKE_INDEX, ab_tok));
        switches.push((HF_ANTENNA_INDEX, hf_tok));
        switches.push((NAVIGATION_INDEX, nav_tok));
        proof {
            assert(switches@.len() == 4);
            assert(switches.deep_view()[0] == (AUTOTHROTTLE_INDEX, snap@.autothrottle));
            assert(switches.deep_view()[1] == (AUTOBRAKE_INDEX, snap@.autobrake));
            assert(switches.deep_view()[2] == (HF_ANTENNA_INDEX, snap@.hf_antenna));
            assert(switches.deep_view()[3] == (NAVIGATION_INDEX, snap@.navigation));
            assert(switches.deep_view() =~= spec_switch_writes(snap@));
        }
    }
    RestorePlan { fuel, switches }
}

} // verus!
