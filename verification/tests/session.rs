//! Livery identity, the storage location and the session state machine on
//! concrete scenarios.

use persistent_loadout::controller::{Phase, ReconciliationController, ACTIVATION_DELAY_LOOPS};
use persistent_loadout::livery::LiveryKey;
use persistent_loadout::locator::{storage_location, AircraftModel};
use persistent_loadout::snapshot::Snapshot;
use persistent_loadout::store::{save_store_bytes, Store};
use persistent_loadout::PluginError;

fn key(path: &[u8]) -> LiveryKey {
    LiveryKey::from_path(&path.to_vec())
}

#[test]
fn livery_key_normalization() {
    // Case differences vanish.
    assert!(key(b"Liveries/Red_Livery").key_eq(&key(b"liveries/red_livery")));
    // The key is the final path component, lower-cased.
    assert_eq!(key(b"Aircraft/B720/liveries/Polar").as_bytes(), &b"polar".to_vec());
    // A trailing separator does not hide the component.
    assert_eq!(key(b"liveries/Blue/").as_bytes(), &b"blue".to_vec());
    assert_eq!(key(b"liveries\\Blue\\").as_bytes(), &b"blue".to_vec());
    // An empty host-reported path normalizes to the sentinel.
    assert_eq!(key(b"").as_bytes(), &b"Default".to_vec());
    assert_eq!(key(b"///").as_bytes(), &b"Default".to_vec());
    // Different liveries stay different.
    assert!(!key(b"l/red").key_eq(&key(b"l/blue")));
}

#[test]
fn storage_locations() {
    let m = AircraftModel::new(b"Boeing_720.acf".to_vec(), b"Aircraft/B720".to_vec());
    assert_eq!(m.out_file_stem(), b"Boeing_720".to_vec());
    assert_eq!(
        storage_location(&m).expect("supported"),
        b"Output/B720/720/persistent-loadout.json".to_vec()
    );
    let mb = AircraftModel::new(b"Boeing_720B.acf".to_vec(), b"Aircraft/B720".to_vec());
    assert_eq!(
        storage_location(&mb).expect("supported"),
        b"Output/B720/720B/persistent-loadout.json".to_vec()
    );
    let other = AircraftModel::new(b"Cessna_172.acf".to_vec(), b"Aircraft/C172".to_vec());
    match storage_location(&other) {
        Err(PluginError::UnsupportedAircraft(name)) => {
            assert_eq!(name, b"Cessna_172".to_vec());
        }
        _ => panic!("unsupported model must be refused"),
    }
}

#[test]
fn file_stem_edge_cases() {
    let no_ext = AircraftModel::new(b"noext".to_vec(), Vec::new());
    assert_eq!(no_ext.out_file_stem(), b"noext".to_vec());
    let hidden = AircraftModel::new(b".hidden".to_vec(), Vec::new());
    assert_eq!(hidden.out_file_stem(), b".hidden".to_vec());
    let dots = AircraftModel::new(b"a.b.acf".to_vec(), Vec::new());
    assert_eq!(dots.out_file_stem(), b"a.b".to_vec());
}

#[test]
fn enable_gate_unsupported_aircraft() {
    let mut c = ReconciliationController::new();
    assert_eq!(c.phase(), Phase::Uninitialized);
    match c.on_enable(&b"A320".to_vec(), 0) {
        Err(PluginError::UnsupportedAircraft(name)) => assert_eq!(name, b"A320".to_vec()),
        _ => panic!("wrong aircraft must be refused"),
    }
    assert_eq!(c.phase(), Phase::Uninitialized);
}

#[test]
fn enable_gate_not_cold_and_dark() {
    let mut c = ReconciliationController::new();
    match c.on_enable(&b"B720".to_vec(), 1) {
        Err(PluginError::NotColdAndDark) => {}
        _ => panic!("a running startup must be refused"),
    }
    assert_eq!(c.phase(), Phase::Uninitialized);
}

#[test]
fn startup_scenario() {
    // The host reports an empty livery path and no stored file exists.
    let current = key(b"");
    assert_eq!(current.as_bytes(), &b"Default".to_vec());
    // Loading the missing file yields absent: the restore step has no
    // snapshot, writes nothing, and raises no error.
    assert!(Store::load(None).is_none());
    // The controller comes up, schedules the delayed callback, and
    // activates on it.
    let mut c = ReconciliationController::new();
    let delay = c.on_enable(&b"B720".to_vec(), 0).expect("gates pass");
    assert_eq!(delay, ACTIVATION_DELAY_LOOPS);
    assert_eq!(c.phase(), Phase::AwaitingActivation);
    c.on_activation(current);
    assert_eq!(c.phase(), Phase::Active);
    assert_eq!(c.last_livery().expect("recorded").as_bytes(), &b"Default".to_vec());
}

#[test]
fn livery_switch_scenario() {
    let mut c = ReconciliationController::new();
    c.on_enable(&b"B720".to_vec(), 0).expect("gates pass");
    c.on_activation(key(b"liveries/Red"));
    // The host reports a new livery for the player's vehicle.
    let blue = key(b"liveries/Blue");
    let plan = c.livery_change_plan(0, &blue).expect("a change is due");
    // Strict order: the live state is read and saved under the old key
    // before anything is restored for the new one.
    assert_eq!(plan.save_under.as_bytes(), &b"red".to_vec());
    assert_eq!(plan.restore_from.as_bytes(), &b"blue".to_vec());
    // The read happens now, before any write: save red's snapshot.
    let live = Snapshot::new(
        vec![b"5.5".to_vec()],
        b"1".to_vec(),
        b"0".to_vec(),
        b"1".to_vec(),
        b"0".to_vec(),
    )
    .expect("valid");
    let bytes = save_store_bytes(None, &plan.save_under, live);
    // Then the restore for blue finds nothing stored: no write happens.
    let store = Store::load(Some(&bytes)).expect("parses");
    assert!(store.lookup(plan.restore_from.as_bytes()).is_none());
    // Only after both halves does the tracked livery change.
    c.commit_livery_change(blue);
    assert_eq!(c.last_livery().expect("recorded").as_bytes(), &b"blue".to_vec());
    // And red's snapshot is on disk.
    assert!(store.lookup(&b"red".to_vec()).is_some());
}

#[test]
fn livery_change_ignored_cases() {
    let mut c = ReconciliationController::new();
    // Before activation nothing is tracked, so notifications are ignored.
    assert!(c.livery_change_plan(0, &key(b"l/blue")).is_none());
    c.on_enable(&b"B720".to_vec(), 0).expect("gates pass");
    c.on_activation(key(b"l/Red"));
    // The same livery again: a spurious notification, no save or restore.
    assert!(c.livery_change_plan(0, &key(b"l/RED")).is_none());
    // Another vehicle slot: not the player's own vehicle.
    assert!(c.livery_change_plan(7, &key(b"l/blue")).is_none());
}

#[test]
fn disable_scenario() {
    let mut c = ReconciliationController::new();
    c.on_enable(&b"B720".to_vec(), 0).expect("gates pass");
    c.on_activation(key(b"l/Red"));
    // On shutdown the live state is saved under the last known livery.
    let resolved = key(b"l/Other");
    assert_eq!(c.save_key(&resolved).as_bytes(), &b"red".to_vec());
    c.on_disable();
    assert_eq!(c.phase(), Phase::Inactive);
    // With no livery ever recorded, the freshly resolved key is used.
    let mut c2 = ReconciliationController::new();
    assert_eq!(c2.save_key(&resolved).as_bytes(), &b"other".to_vec());
    c2.on_disable();
    assert_eq!(c2.phase(), Phase::Inactive);
}
