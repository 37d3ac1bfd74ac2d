//! The reconciliation state machine: when snapshots are captured and when
//! they are restored. The controller is a pure planner — the host shell
//! performs the file and cell operations it decides on — so every decision
//! is a verified function of the controller's state and the reported
//! event. The one piece of state kept between host events is the last
//! known livery, updated only after a change's save and restore both ran.

use vstd::prelude::*;

use crate::livery::LiveryKey;
use crate::PluginError;

verus! {

/// Where the engine stands in its session.
#[derive(Clone, Copy, Debug, PartialEq, Eq, Structural)]
pub enum Phase {
    /// Constructed; the host has not enabled the engine yet.
    Uninitialized,
    /// Enabled; waiting for the delayed one-shot callback, after which the
    /// host's live cells are valid.
    AwaitingActivation,
    /// Restored once; watching for livery changes until the session ends.
    Active,
    /// Disabled for the rest of the session.
    Inactive,
}

/// How many host frames to wait after enabling before the live cells can
/// be trusted.
pub const ACTIVATION_DELAY_LOOPS: u32 = 60;

/// The aircraft identifier the engine is validated for: the bytes of
/// `B720`.
pub open spec fn supported_icao() -> Seq<u8> {
    seq![66u8, 55u8, 50u8, 48u8]
}

/// The decision taken on a livery-change notification: save the live state
/// under the old key first, only then load and restore under the new key —
/// the save must read the live state before any restore overwrites it.
pub struct ChangePlan {
    /// The key the current live state is saved under: the last known
    /// livery.
    pub save_under: LiveryKey,
    /// The key whose stored snapshot is then restored, if one exists.
    pub restore_from: LiveryKey,
}

/// The reconciliation controller.
pub struct ReconciliationController {
    phase: Phase,
    last_livery: Option<LiveryKey>,
}

impl View for ReconciliationController {
    type V = (Phase, Option<Seq<u8>>);

    closed spec fn view(&self) -> (Phase, Option<Seq<u8>>) {
        (
            self.phase,
            match self.last_livery {
                Some(k) => Some(k@),
                None => None,
            },
        )
    }
}

impl ReconciliationController {
    /// Constructs the controller with no tracked livery. No files or cells
    /// are touched.
    pub fn new() -> (r: ReconciliationController)
        ensures
            r@ == (Phase::Uninitialized, None::<Seq<u8>>),
    {
        ReconciliationController { phase: Phase::Uninitialized, last_livery: None }
    }

    /// The current phase.
    pub fn phase(&self) -> (r: Phase)
        ensures
            r == self@.0,
    {
        self.phase
    }

    /// The last known livery key, if one was recorded.
    pub fn last_livery(&self) -> (r: Option<&LiveryKey>)
        ensures
            match r {
                Some(k) => self@.1 == Some(k@),
                None => self@.1 is None,
            },
    {
        match &self.last_livery {
            Some(k) => Some(k),
            None => None,
        }
    }

    /// The enable gate: the engine comes up only for the supported
    /// aircraft, and only when the vehicle was started fully powered down.
    /// On success it asks for a one-shot callback after a fixed number of
    /// frames and awaits activation; on failure it stays as it was and the
    /// session continues without it.
    pub fn on_enable(&mut self, icao: &Vec<u8>, startup_running: i32) -> (r: Result<
        u32,
        PluginError,
    >)
        requires
            old(self)@.0 == Phase::Uninitialized,
        ensures
            match r {
                Ok(delay) => icao@ == supported_icao() && startup_running == 0 && delay
                    == ACTIVATION_DELAY_LOOPS && final(self)@ == (
                    Phase::AwaitingActivation,
                    old(self)@.1,
                ),
                Err(e) => final(self)@ == old(self)@ && ((icao@ != supported_icao() && (e matches
                PluginError::UnsupportedAircraft(n) && n@ == icao@)) || (icao@ == supported_icao()
                    && startup_running != 0 && e is NotColdAndDark)),
            },
    {
        let lit: [u8; 4] = [66u8, 55u8, 50u8, 48u8];
        proof {
            assert(lit@ =~= supported_icao());
        }
        if !crate::bytes::bytes_eq_lit(icao, &lit) {
            return Err(PluginError::UnsupportedAircraft(crate::bytes::clone_bytes(icao)));
        }
        if startup_running != 0 {
            return Err(PluginError::NotColdAndDark);
        }
        self.phase = Phase::AwaitingActivation;
        Ok(ACTIVATION_DELAY_LOOPS)
    }

    /// The delayed one-shot callback fired: the restore for `key` ran (or
    /// found nothing stored); `key` becomes the last known livery and the
    /// engine is active. The callback never runs again, however the
    /// restore went.
    pub fn on_activation(&mut self, key: LiveryKey)
        requires
            old(self)@.0 == Phase::AwaitingActivation,
        ensures
            final(self)@ == (Phase::Active, Some(key@)),
    {
        self.last_livery = Some(key);
        self.phase = Phase::Active;
    }

    /// The decision on a livery-change notification: act only when active,
    /// only for the player's own vehicle (slot index zero), only once a
    /// livery is known, and only when the reported livery differs from it.
    /// The plan then says: save the live state under the old key, then
    /// restore the new key's stored snapshot.
    pub fn livery_change_plan(&self, index: i32, new_key: &LiveryKey) -> (r: Option<ChangePlan>)
        ensures
            match r {
                Some(p) => self@.0 == Phase::Active && index == 0 && self@.1 == Some(p.save_under@)
                    && p.save_under@ != new_key@ && p.restore_from@ == new_key@,
                None => !(self@.0 == Phase::Active && index == 0 && self@.1 is Some && self@.1
                    != Some(new_key@)),
            },
    {
        if !matches!(self.phase, Phase::Active) {
            return None;
        }
        if index != 0 {
            return None;
        }
        match &self.last_livery {
            None => None,
            Some(old_key) => {
                if old_key.key_eq(new_key) {
                    None
                } else {
                    Some(
                        ChangePlan {
                            save_under: old_key.duplicate(),
                            restore_from: new_key.duplicate(),
                        },
                    )
                }
            },
        }
    }

    /// Both halves of a livery change ran to completion: only now does the
    /// new key become the last known livery.
    pub fn commit_livery_change(&mut self, new_key: LiveryKey)
        requires
            old(self)@.0 == Phase::Active,
        ensures
            final(self)@ == (Phase::Active, Some(new_key@)),
    {
        self.last_livery = Some(new_key);
    }

    /// The key to save the live state under when the engine shuts down:
    /// the last known livery, or the freshly resolved one when none was
    /// recorded.
    pub fn save_key<'a>(&'a self, resolved: &'a LiveryKey) -> (r: &'a LiveryKey)
        ensures
            r@ == match self@.1 {
                Some(k) => k,
                None => resolved@,
            },
    {
        match &self.last_livery {
            Some(k) => k,
            None => resolved,
        }
    }

    /// The host disables the engine (shutdown or vehicle change): the
    /// session ends for it, whatever state it was in. The shell saves the
    /// live state first; failures there are logged and never escalate.
    pub fn on_disable(&mut self)
        ensures
            final(self)@ == (Phase::Inactive, old(self)@.1),
    {
        self.phase = Phase::Inactive;
    }
}

} // verus!
