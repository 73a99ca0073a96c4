use brunch::codec::deserialize;
use brunch::codec::serialize;
use brunch::history::History;
use brunch::stats::Stats;

const MAGIC: &[u8] = b"BRUNCH00";

fn first_one() -> Stats {
    Stats { total: 2500, valid: 2496, deviation: 123, mean: 2200 }
}

fn second_one() -> Stats {
    Stats { total: 300, valid: 222, deviation: 400123, mean: 12200 }
}

#[test]
fn t_stats_ser() {
    let mut h = History::new();
    h.insert("The First One", first_one());
    h.insert("The Second One", second_one());

    // Serialize it.
    let s = serialize(&h);
    assert!(s.starts_with(MAGIC), "Missing magic header.");

    // Deserialize it.
    let d = deserialize(&s).expect("Deserialization failed.");

    // The deserialized length should match our reference length.
    assert_eq!(h.len(), d.len());

    // Make sure the entries are unchanged.
    for (lbl, stat) in [("The First One", first_one()), ("The Second One", second_one())] {
        let tmp = d.get(lbl).expect("Missing entry!");
        assert_eq!(stat.total, tmp.total, "Total changed.");
        assert_eq!(stat.valid, tmp.valid, "Valid changed.");
        assert_eq!(stat.deviation, tmp.deviation, "Deviation changed.");
        assert_eq!(stat.mean, tmp.mean, "Mean changed.");
    }

    // A logically-suspect entry must get stripped out during
    // deserialization.
    h.insert(
        "A Suspect One",
        Stats { total: 200, valid: 300, deviation: 400123, mean: 12200 },
    );
    assert!(h.get("A Suspect One").is_some());
    let s = serialize(&h);
    let d = deserialize(&s).unwrap();

    assert!(d.get("The First One").is_some());
    assert!(d.get("The Second One").is_some());
    assert!(d.get("A Suspect One").is_none()); // Shouldn't be here.
}

#[test]
fn t_serialize() {
    let mut h = History::new();
    h.insert("The First One", first_one());
    h.insert("The Second One", second_one());

    // Serialize it.
    let s = serialize(&h);
    assert!(s.starts_with(MAGIC), "Missing magic header.");

    // Deserialize it.
    let d = deserialize(&s).expect("Deserialization failed.");

    // The deserialized length should match our reference length.
    assert_eq!(h.len(), d.len(), "Deserialized length mismatch.");

    // Make sure the entries are unchanged.
    for (lbl, stat) in [("The First One", first_one()), ("The Second One", second_one())] {
        let tmp = d.get(lbl).expect("Missing entry!");
        assert_eq!(stat.total, tmp.total, "Total changed.");
        assert_eq!(stat.valid, tmp.valid, "Valid changed.");
        assert_eq!(stat.deviation, tmp.deviation, "Deviation changed.");
        assert_eq!(stat.mean, tmp.mean, "Mean changed.");
    }

    // A suspect record and an unnamed record should both vanish on the
    // next round trip.
    h.insert(
        "A Suspect One",
        Stats { total: 200, valid: 300, deviation: 400123, mean: 12200 },
    );
    h.insert(
        "",
        Stats { total: 500, valid: 300, deviation: 400123, mean: 12200 },
    );

    assert!(h.get("A Suspect One").is_some());
    assert!(h.get("").is_some());

    // Another round of in/out.
    let mut s = serialize(&h);
    let d = deserialize(&s).expect("Deserialization failed.");

    // Check they got filtered out during deserialization.
    assert_eq!(2, d.len(), "Deserialized length mismatch.");
    assert!(d.get("A Suspect One").is_none()); // Shouldn't be here.
    assert!(d.get("").is_none());

    // To be extra safe, recheck the valid entries to make sure they
    // didn't get screwed up in any way.
    for (lbl, stat) in [("The First One", first_one()), ("The Second One", second_one())] {
        let tmp = d.get(lbl).expect("Missing entry!");
        assert_eq!(stat.total, tmp.total, "Total changed.");
        assert_eq!(stat.valid, tmp.valid, "Valid changed.");
        assert_eq!(stat.deviation, tmp.deviation, "Deviation changed.");
        assert_eq!(stat.mean, tmp.mean, "Mean changed.");
    }

    // Make sure deserializing doesn't do anything on bad data.
    s.pop().unwrap();
    assert!(deserialize(&s).is_none());
    assert!(deserialize(&Vec::new()).is_none());
}

#[test]
fn t_bad_magic() {
    let mut h = History::new();
    h.insert("x", first_one());
    let mut s = serialize(&h);
    s[0] = b'b';
    assert!(deserialize(&s).is_none());
}

#[test]
fn t_bad_label_bytes() {
    // A label that is not UTF-8 is structural damage.
    let mut s: Vec<u8> = Vec::new();
    s.extend_from_slice(MAGIC);
    s.extend_from_slice(&1u16.to_be_bytes());
    s.push(0xFF);
    s.extend_from_slice(&2500u32.to_be_bytes());
    s.extend_from_slice(&2496u32.to_be_bytes());
    s.extend_from_slice(&123u64.to_be_bytes());
    s.extend_from_slice(&2200u64.to_be_bytes());
    assert!(deserialize(&s).is_none());
}

#[test]
fn t_label_trimmed() {
    // Labels are whitespace-trimmed when loaded.
    let mut s: Vec<u8> = Vec::new();
    s.extend_from_slice(MAGIC);
    s.extend_from_slice(&4u16.to_be_bytes());
    s.extend_from_slice(b" ab ");
    s.extend_from_slice(&2500u32.to_be_bytes());
    s.extend_from_slice(&2496u32.to_be_bytes());
    s.extend_from_slice(&123u64.to_be_bytes());
    s.extend_from_slice(&2200u64.to_be_bytes());
    let d = deserialize(&s).unwrap();
    assert_eq!(d.len(), 1);
    assert_eq!(d.get("ab"), Some(first_one()));

    // A label that is nothing but whitespace is dropped as empty.
    let mut s: Vec<u8> = Vec::new();
    s.extend_from_slice(MAGIC);
    s.extend_from_slice(&3u16.to_be_bytes());
    s.extend_from_slice(b"   ");
    s.extend_from_slice(&2500u32.to_be_bytes());
    s.extend_from_slice(&2496u32.to_be_bytes());
    s.extend_from_slice(&123u64.to_be_bytes());
    s.extend_from_slice(&2200u64.to_be_bytes());
    let d = deserialize(&s).unwrap();
    assert_eq!(d.len(), 0);
}

#[test]
fn t_history_insert_replaces() {
    let mut h = History::new();
    h.insert("a", first_one());
    h.insert("b", second_one());
    assert_eq!(h.len(), 2);
    h.insert("a", second_one());
    assert_eq!(h.len(), 2);
    assert_eq!(h.get("a"), Some(second_one()));
    assert_eq!(h.get("b"), Some(second_one()));
    assert_eq!(h.get("c"), None);
}

#[test]
fn t_long_label_skipped() {
    // A name too long for the two-byte length prefix is skipped when
    // serializing, so it vanishes from the round trip.
    let mut h = History::new();
    h.insert(&"x".repeat(70_000), first_one());
    h.insert("short", second_one());
    assert_eq!(h.len(), 2);
    let s = serialize(&h);
    let d = deserialize(&s).unwrap();
    assert_eq!(d.len(), 1);
    assert_eq!(d.get("short"), Some(second_one()));
}

#[test]
fn t_round_trip_repeated() {
    // Serializing what deserialization produced reproduces the bytes.
    let mut h = History::new();
    h.insert("one", first_one());
    h.insert("two", second_one());
    let s1 = serialize(&h);
    let d = deserialize(&s1).unwrap();
    let s2 = serialize(&d);
    assert_eq!(s1, s2);
}
