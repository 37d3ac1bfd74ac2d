//! Store, codec and bridge behaviour on concrete values.

use persistent_loadout::bridge::{restore_plan, snapshot_from_live};
use persistent_loadout::codec::parse_store;
use persistent_loadout::livery::LiveryKey;
use persistent_loadout::snapshot::Snapshot;
use persistent_loadout::store::{save_store_bytes, Store};

fn tok(s: &str) -> Vec<u8> {
    s.as_bytes().to_vec()
}

fn snap(fuel: &[&str], ab: &str, at: &str, hf: &str, nav: &str) -> Snapshot {
    Snapshot::new(
        fuel.iter().map(|t| tok(t)).collect(),
        tok(ab),
        tok(at),
        tok(hf),
        tok(nav),
    )
    .expect("valid tokens")
}

fn f32_tok(x: f32) -> Vec<u8> {
    format!("{}", x).into_bytes()
}

#[test]
fn round_trip_single_key() {
    let s = snap(&["1.5", "2.25", "0.125"], "1", "0.5", "0", "-2e3");
    let key = LiveryKey::from_path(&b"Liveries/Red".to_vec());
    let bytes = save_store_bytes(None, &key, s);
    let store = Store::load(Some(&bytes)).expect("own output parses");
    let got = store.lookup(key.as_bytes()).expect("saved key present");
    let fuel = got.fuel();
    assert_eq!(fuel.len(), 3);
    assert_eq!(fuel[0], tok("1.5"));
    assert_eq!(fuel[1], tok("2.25"));
    assert_eq!(fuel[2], tok("0.125"));
    assert_eq!(got.autobrake(), &tok("1"));
    assert_eq!(got.autothrottle(), &tok("0.5"));
    assert_eq!(got.hf_antenna(), &tok("0"));
    assert_eq!(got.navigation(), &tok("-2e3"));
}

#[test]
fn round_trip_preserves_float_bits() {
    let values: [f32; 6] = [1.5, -0.0, 3.1415927, f32::MIN_POSITIVE, 123456790.0, -7.25e-12];
    let fuel: Vec<Vec<u8>> = values.iter().map(|v| f32_tok(*v)).collect();
    let s = Snapshot::new(fuel, f32_tok(0.0), f32_tok(1.0), f32_tok(0.25), f32_tok(-1.0))
        .expect("formatted floats are valid tokens");
    let key = LiveryKey::from_path(&b"x/bits".to_vec());
    let bytes = save_store_bytes(None, &key, s);
    let store = Store::load(Some(&bytes)).expect("parses");
    let got = store.lookup(key.as_bytes()).expect("present");
    for (i, v) in values.iter().enumerate() {
        let text = String::from_utf8(got.fuel()[i].clone()).expect("utf8");
        let back: f32 = text.parse().expect("parses as f32");
        assert_eq!(back.to_bits(), v.to_bits());
    }
}

#[test]
fn defaulting_fuel_only() {
    let bytes = b"{\"red\":{\"fuel\":[1.5,2.0]}}".to_vec();
    let store = Store::load(Some(&bytes)).expect("parses");
    let got = store.lookup(&b"red".to_vec()).expect("present");
    assert_eq!(got.fuel().len(), 2);
    assert_eq!(got.autobrake(), &tok("0.0"));
    assert_eq!(got.autothrottle(), &tok("0.0"));
    assert_eq!(got.hf_antenna(), &tok("0.0"));
    assert_eq!(got.navigation(), &tok("0.0"));
}

#[test]
fn tolerant_parse_garbage() {
    assert!(Store::load(Some(&b"not a store at all {{{".to_vec())).is_none());
    assert!(Store::load(Some(&b"{\"red\":{\"fuel\":[1.5".to_vec())).is_none());
    assert!(Store::load(Some(&b"".to_vec())).is_none());
    // A missing file also loads as absent; nothing is restored and nothing
    // fails.
    assert!(Store::load(None).is_none());
}

#[test]
fn non_destructive_save() {
    let red = LiveryKey::from_path(&b"l/red".to_vec());
    let blue = LiveryKey::from_path(&b"l/blue".to_vec());
    let bytes1 = save_store_bytes(None, &red, snap(&["1"], "0", "0", "0", "0"));
    let bytes2 = save_store_bytes(Some(&bytes1), &blue, snap(&["7.5"], "1", "1", "1", "1"));
    let bytes3 = save_store_bytes(
        Some(&bytes2),
        &red,
        snap(&["2.5", "3.5"], "1", "0", "1", "0"),
    );
    let store = Store::load(Some(&bytes3)).expect("parses");
    let b = store.lookup(blue.as_bytes()).expect("blue kept");
    assert_eq!(b.fuel()[0], tok("7.5"));
    assert_eq!(b.autobrake(), &tok("1"));
    let r = store.lookup(red.as_bytes()).expect("red updated");
    assert_eq!(r.fuel().len(), 2);
    assert_eq!(r.fuel()[1], tok("3.5"));
}

#[test]
fn save_order_deterministic() {
    let alpha = LiveryKey::from_path(&b"l/alpha".to_vec());
    let zeta = LiveryKey::from_path(&b"l/zeta".to_vec());
    let s1 = || snap(&["1"], "0", "0", "0", "0");
    let s2 = || snap(&["2"], "1", "1", "1", "1");
    let one = save_store_bytes(Some(&save_store_bytes(None, &alpha, s1())), &zeta, s2());
    let other = save_store_bytes(Some(&save_store_bytes(None, &zeta, s2())), &alpha, s1());
    // Keys are written in sorted order, so insertion order does not show.
    assert_eq!(one, other);
    let text = String::from_utf8(one).expect("utf8");
    let ia = text.find("alpha").expect("alpha written");
    let iz = text.find("zeta").expect("zeta written");
    assert!(ia < iz);
}

#[test]
fn unknown_fields_ignored() {
    let bytes = b"{\"k\":{\"fuel\":[1],\"color\":\"blue\",\"nested\":{\"a\":[true,null,{\"x\":1}],\"b\":false},\"autobrake\":2}}"
        .to_vec();
    let store = Store::load(Some(&bytes)).expect("unknown fields are skipped");
    let got = store.lookup(&b"k".to_vec()).expect("present");
    assert_eq!(got.autobrake(), &tok("2"));
    assert_eq!(got.autothrottle(), &tok("0.0"));
}

#[test]
fn whitespace_tolerated() {
    let bytes = b" {\n\t\"k\" : { \"fuel\" : [ 1.5 , 2 ] , \"navigation\" : 1 }\r\n} ".to_vec();
    let store = Store::load(Some(&bytes)).expect("blanks are skipped");
    let got = store.lookup(&b"k".to_vec()).expect("present");
    assert_eq!(got.fuel().len(), 2);
    assert_eq!(got.navigation(), &tok("1"));
}

#[test]
fn empty_fuel_array() {
    let bytes = b"{\"k\":{\"fuel\":[]}}".to_vec();
    let store = Store::load(Some(&bytes)).expect("parses");
    let got = store.lookup(&b"k".to_vec()).expect("present");
    assert_eq!(got.fuel().len(), 0);
    // And such a record survives its own round trip.
    let key = LiveryKey::from_path(&b"l/k".to_vec());
    let s = Snapshot::new(Vec::new(), tok("0.0"), tok("0.0"), tok("0.0"), tok("0.0")).unwrap();
    let bytes2 = save_store_bytes(None, &key, s);
    let store2 = Store::load(Some(&bytes2)).expect("parses");
    assert_eq!(store2.lookup(key.as_bytes()).unwrap().fuel().len(), 0);
}

#[test]
fn missing_fuel_rejected() {
    let bytes = b"{\"k\":{\"autobrake\":1}}".to_vec();
    assert!(Store::load(Some(&bytes)).is_none());
    let empty_record = b"{\"k\":{}}".to_vec();
    assert!(Store::load(Some(&empty_record)).is_none());
}

#[test]
fn duplicate_key_last_wins() {
    let bytes = b"{\"k\":{\"fuel\":[1]},\"k\":{\"fuel\":[2]}}".to_vec();
    let store = Store::load(Some(&bytes)).expect("parses");
    let got = store.lookup(&b"k".to_vec()).expect("present");
    assert_eq!(got.fuel()[0], tok("2"));
}

#[test]
fn escaped_keys_round_trip() {
    let weird: Vec<u8> = b"we\"ird\\key".to_vec();
    let store = Store::empty().upsert(weird.clone(), snap(&["4"], "0", "0", "0", "0"));
    let bytes = store.to_bytes();
    let raw = parse_store(&bytes).expect("parses");
    assert_eq!(raw.len(), 1);
    assert_eq!(raw[0].key(), &weird);
    let store2 = Store::load(Some(&bytes)).expect("parses");
    assert_eq!(store2.lookup(&weird).unwrap().fuel()[0], tok("4"));
}

#[test]
fn invalid_tokens_rejected() {
    assert!(Snapshot::new(vec![tok("abc")], tok("0"), tok("0"), tok("0"), tok("0")).is_none());
    assert!(Snapshot::new(vec![tok("1")], tok(""), tok("0"), tok("0"), tok("0")).is_none());
    assert!(Snapshot::new(vec![tok("1.")], tok("0"), tok("0"), tok("0"), tok("0")).is_none());
    assert!(Snapshot::new(vec![tok("1e")], tok("0"), tok("0"), tok("0"), tok("0")).is_none());
    assert!(Snapshot::new(vec![tok("1"), tok("2"), tok("--3")], tok("0"), tok("0"), tok("0"), tok("0")).is_none());
    assert!(Snapshot::new(vec![tok("-1.25e+10")], tok("0"), tok("0"), tok("0"), tok("0")).is_some());
}

#[test]
fn bounds_guard_skips_switches_only() {
    let s = snap(&["1", "2", "3"], "1", "0.5", "0", "1");
    // The host equipment array stops right at the highest used index: the
    // equipment write is skipped, the fuel write is not.
    let plan = restore_plan(&s, 9, 84);
    assert_eq!(plan.switches.len(), 0);
    assert_eq!(plan.fuel.len(), 3);
    // A long enough equipment array gets all four indexed writes.
    let plan2 = restore_plan(&s, 2, 85);
    assert_eq!(plan2.fuel.len(), 2);
    assert_eq!(plan2.fuel[0], tok("1"));
    assert_eq!(plan2.fuel[1], tok("2"));
    assert_eq!(plan2.switches.len(), 4);
    assert_eq!(plan2.switches[0], (49, tok("0.5")));
    assert_eq!(plan2.switches[1], (50, tok("1")));
    assert_eq!(plan2.switches[2], (56, tok("0")));
    assert_eq!(plan2.switches[3], (84, tok("1")));
}

#[test]
fn snapshot_from_live_picks_indices() {
    let mut switches: Vec<Vec<u8>> = Vec::new();
    for i in 0..85usize {
        switches.push(format!("{}", i).into_bytes());
    }
    let s = snapshot_from_live(vec![tok("5.5")], &switches).expect("valid");
    assert_eq!(s.autothrottle(), &tok("49"));
    assert_eq!(s.autobrake(), &tok("50"));
    assert_eq!(s.hf_antenna(), &tok("56"));
    assert_eq!(s.navigation(), &tok("84"));
    // A shorter host array defaults the missing switches.
    let short: Vec<Vec<u8>> = vec![tok("9")];
    let s2 = snapshot_from_live(vec![tok("5.5")], &short).expect("valid");
    assert_eq!(s2.autobrake(), &tok("0.0"));
    assert_eq!(s2.navigation(), &tok("0.0"));
}

#[test]
fn exact_output_bytes() {
    let key = LiveryKey::from_path(&b"l/K".to_vec());
    let bytes = save_store_bytes(None, &key, snap(&["1"], "0", "0", "0", "0"));
    assert_eq!(
        String::from_utf8(bytes).unwrap(),
        "{\"k\":{\"fuel\":[1],\"autobrake\":0,\"autothrottle\":0,\"hf_antenna\":0,\"navigation\":0}}"
    );
}

#[test]
fn number_grammar_edges() {
    // Exponent and sign forms are kept exactly as stored.
    let bytes = b"{\"k\":{\"fuel\":[-1.25e+10,2E-3,0,10.5]}}".to_vec();
    let store = Store::load(Some(&bytes)).expect("parses");
    let got = store.lookup(&b"k".to_vec()).expect("present");
    assert_eq!(got.fuel()[0], tok("-1.25e+10"));
    assert_eq!(got.fuel()[1], tok("2E-3"));
    // Malformed numbers make the whole file load as absent.
    assert!(Store::load(Some(&b"{\"k\":{\"fuel\":[1.]}}".to_vec())).is_none());
    assert!(Store::load(Some(&b"{\"k\":{\"fuel\":[+1]}}".to_vec())).is_none());
    assert!(Store::load(Some(&b"{\"k\":{\"fuel\":[1e]}}".to_vec())).is_none());
}

#[test]
fn output_is_plain_json() {
    let red = LiveryKey::from_path(&b"l/red".to_vec());
    let blue = LiveryKey::from_path(&b"l/blue".to_vec());
    let bytes1 = save_store_bytes(None, &red, snap(&["1.5", "2"], "1", "0.5", "0", "3e2"));
    let bytes2 = save_store_bytes(Some(&bytes1), &blue, snap(&["-0.25"], "0", "0", "0", "0"));
    let value: serde_json::Value = serde_json::from_slice(&bytes2).expect("valid json");
    assert_eq!(value["red"]["fuel"][0].as_f64().unwrap(), 1.5);
    assert_eq!(value["red"]["autothrottle"].as_f64().unwrap(), 0.5);
    assert_eq!(value["red"]["navigation"].as_f64().unwrap(), 300.0);
    assert_eq!(value["blue"]["fuel"][0].as_f64().unwrap(), -0.25);
    // And a store written by another producer loads here.
    let foreign = serde_json::to_vec(&value).expect("serializes");
    let store = Store::load(Some(&foreign)).expect("foreign json parses");
    assert!(store.lookup(red.as_bytes()).is_some());
}
