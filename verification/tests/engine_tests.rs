use elizadb::query::Query;
use elizadb::storage::{Database, Key};

fn key(v: u64) -> Key {
    Key::new(v).unwrap()
}

fn sorted(mut terms: Vec<String>) -> Vec<String> {
    terms.sort();
    terms
}

#[test]
fn state_is_stored_and_loaded() {
    let mut db = Database::<8>::default();

    let k = key(1);

    db.add_term("term").unwrap();
    db.add_term("term2").unwrap();
    db.create_record(k);
    db.set_flag(k, "term").unwrap();

    let storage = db.dump().unwrap();

    let db = Database::<8>::read(storage.as_slice()).unwrap();

    assert_eq!(db.horizontal_query(&k), Some(vec!["term".to_string()]));
}

#[test]
fn zero_is_never_a_key() {
    assert!(Key::new(0).is_none());
    assert_eq!(Key::new(7).unwrap().get(), 7);
}

#[test]
fn interning_is_idempotent_and_monotonic() {
    let mut db = Database::<8>::default();
    let a = db.add_term("alpha").unwrap();
    let b = db.add_term("beta").unwrap();
    let a2 = db.add_term("alpha").unwrap();
    assert_eq!(a.get(), 1);
    assert_eq!(b.get(), 2);
    assert_eq!(a2.get(), 1);
    assert_eq!(db.get_term_id("alpha"), Some(1));
    assert_eq!(db.get_term_id("beta"), Some(2));
    assert_eq!(db.get_term_id("gamma"), None);
    assert_eq!(db.explain_term_id(1).map(|s| s.as_str()), Some("alpha"));
    assert_eq!(db.explain_term_id(2).map(|s| s.as_str()), Some("beta"));
    assert!(db.explain_term_id(3).is_none());
}

#[test]
fn term_capacity_is_exhausted_at_253() {
    let mut db = Database::<8>::default();
    for i in 0..253u32 {
        let id = db.add_term(&format!("t{}", i)).unwrap();
        assert_eq!(id.get() as u32, i + 1);
    }
    assert_eq!(db.add_term("one too many"), Err(()));
    // Known terms still intern fine.
    assert_eq!(db.add_term("t0").unwrap().get(), 1);
    // And set_flag propagates the capacity error.
    assert_eq!(db.set_flag(key(1), "another fresh term"), Err(()));
}

#[test]
fn create_record_is_idempotent() {
    let mut db = Database::<8>::default();
    assert!(db.create_record(key(4)));
    assert!(!db.create_record(key(4)));
    assert_eq!(db.horizontal_query(&key(4)), Some(vec![]));
    assert_eq!(db.horizontal_query(&key(5)), None);
}

#[test]
fn set_flag_reports_newness() {
    let mut db = Database::<8>::default();
    assert_eq!(db.set_flag(key(1), "kms"), Ok(true));
    assert_eq!(db.set_flag(key(1), "kms"), Ok(false));
    let terms = db.horizontal_query(&key(1)).unwrap();
    assert_eq!(terms, vec!["kms".to_string()]);
}

#[test]
fn simple_scenario() {
    let mut db = Database::<8>::default();
    db.add_term("kms").unwrap();
    db.create_record(key(1));
    assert_eq!(db.set_flag(key(1), "kms"), Ok(true));
    assert_eq!(
        db.horizontal_query(&key(1)),
        Some(vec!["kms".to_string()])
    );
    assert_eq!(
        db.vertical_query(&Query::Simple { term: "kms".to_string() }),
        Ok(vec![key(1)])
    );
    assert_eq!(
        db.vertical_query(&Query::Simple { term: "unknown".to_string() }),
        Err("unknown term unknown".to_string())
    );
}

#[test]
fn k_of_n_scenario() {
    let mut db = Database::<8>::default();
    for k in 1..=10u64 {
        db.create_record(key(k));
        db.set_flag(key(k), "a").unwrap();
    }
    db.set_flag(key(5), "b").unwrap();
    db.set_flag(key(5), "c").unwrap();

    let hits = db
        .vertical_query(&Query::KofN {
            terms: vec!["a".to_string(), "b".to_string(), "c".to_string()],
            bound: 2,
        })
        .unwrap();
    assert_eq!(hits, vec![key(5)]);
}

#[test]
fn k_of_n_zero_bound_matches_every_key() {
    let mut db = Database::<8>::default();
    db.create_record(key(2));
    db.create_record(key(9));
    let hits = db
        .vertical_query(&Query::KofN { terms: vec![], bound: 0 })
        .unwrap();
    assert_eq!(hits.len(), 2);
    assert!(hits.contains(&key(2)));
    assert!(hits.contains(&key(9)));
}

#[test]
fn k_of_n_bound_above_list_matches_no_key() {
    let mut db = Database::<8>::default();
    db.set_flag(key(3), "a").unwrap();
    let hits = db
        .vertical_query(&Query::KofN { terms: vec!["a".to_string()], bound: 2 })
        .unwrap();
    assert!(hits.is_empty());
}

#[test]
fn k_of_n_names_first_unknown_term() {
    let mut db = Database::<8>::default();
    db.set_flag(key(3), "a").unwrap();
    let err = db
        .vertical_query(&Query::KofN {
            terms: vec!["a".to_string(), "nope".to_string(), "also nope".to_string()],
            bound: 1,
        })
        .unwrap_err();
    assert_eq!(err, "unknown term nope".to_string());
}

#[test]
fn duplicate_terms_in_a_query_count_twice() {
    let mut db = Database::<8>::default();
    db.set_flag(key(1), "a").unwrap();
    let hits = db
        .vertical_query(&Query::KofN {
            terms: vec!["a".to_string(), "a".to_string()],
            bound: 2,
        })
        .unwrap();
    assert_eq!(hits, vec![key(1)]);
}

#[test]
fn overflow_migrates_to_big_storage() {
    let mut db = Database::<2>::default();
    let names = ["r", "s", "t", "u"];
    for name in names {
        assert_eq!(db.set_flag(key(1), name), Ok(true));
    }
    // All four terms survive the migration out of a capacity-2 inline set.
    let terms = db.horizontal_query(&key(1)).unwrap();
    assert_eq!(
        sorted(terms),
        vec!["r".to_string(), "s".to_string(), "t".to_string(), "u".to_string()]
    );
    // A fifth distinct term still succeeds: the big tier never fills up.
    assert_eq!(db.set_flag(key(1), "v"), Ok(true));
    assert_eq!(db.set_flag(key(1), "v"), Ok(false));
    // The vacated inline slot is recycled for the next new key.
    assert!(db.create_record(key(2)));
    assert_eq!(db.set_flag(key(2), "r"), Ok(true));
    let hits = db
        .vertical_query(&Query::Simple { term: "r".to_string() })
        .unwrap();
    assert_eq!(hits.len(), 2);
    assert!(hits.contains(&key(1)));
    assert!(hits.contains(&key(2)));
}

#[test]
fn list_keys_covers_both_tiers() {
    let mut db = Database::<2>::default();
    db.create_record(key(7));
    for name in ["a", "b", "c"] {
        db.set_flag(key(3), name).unwrap();
    }
    let keys = db.list_keys();
    assert_eq!(keys.len(), 2);
    assert!(keys.contains(&key(7)));
    assert!(keys.contains(&key(3)));
}

#[test]
fn bulk_creation_reports_existing_keys() {
    let mut db = Database::<8>::default();
    db.create_record(key(2));
    let existing = db.create_records_bulk(&vec![key(1), key(2), key(3), key(1)]);
    assert_eq!(existing, vec![key(2), key(1)]);
    assert_eq!(db.list_keys().len(), 3);
}

#[test]
fn bulk_flagging_tags_every_key() {
    let mut db = Database::<8>::default();
    db.set_flag_bulk(&vec![key(1), key(2), key(3)], "x").unwrap();
    for k in 1..=3u64 {
        assert_eq!(db.horizontal_query(&key(k)), Some(vec!["x".to_string()]));
    }
    let hits = db
        .vertical_query(&Query::Simple { term: "x".to_string() })
        .unwrap();
    assert_eq!(hits.len(), 3);
}

#[test]
fn round_trip_preserves_queries_across_tiers() {
    let mut db = Database::<2>::default();
    for name in ["a", "b", "c"] {
        db.set_flag(key(1), name).unwrap();
    }
    db.set_flag(key(2), "a").unwrap();
    db.create_record(key(3));

    let bytes = db.dump().unwrap();
    let loaded = Database::<2>::read(bytes.as_slice()).unwrap();

    for k in 1..=3u64 {
        let before = db.horizontal_query(&key(k)).map(sorted);
        let after = loaded.horizontal_query(&key(k)).map(sorted);
        assert_eq!(before, after);
    }
    assert_eq!(loaded.horizontal_query(&key(4)), None);
    for term in ["a", "b", "c"] {
        let mut before = db
            .vertical_query(&Query::Simple { term: term.to_string() })
            .unwrap();
        let mut after = loaded
            .vertical_query(&Query::Simple { term: term.to_string() })
            .unwrap();
        before.sort_by_key(|k| k.get());
        after.sort_by_key(|k| k.get());
        assert_eq!(before, after);
    }
    // A second round trip is a fixed point.
    let bytes2 = loaded.dump().unwrap();
    let loaded2 = Database::<2>::read(bytes2.as_slice()).unwrap();
    assert_eq!(
        loaded2.horizontal_query(&key(1)).map(sorted),
        db.horizontal_query(&key(1)).map(sorted)
    );
}

#[test]
fn snapshots_with_alien_ids_are_rejected() {
    // One interned term, but a stored set holding id 200: no such term was
    // ever assigned, so the snapshot must be refused.
    let bytes = rmp_serde::to_vec(&(
        vec!["a".to_string()],
        vec![1u64],
        vec![vec![200u8, 0, 0, 0, 0, 0, 0, 0]],
        Vec::<(u64, Vec<u8>)>::new(),
    ))
    .unwrap();
    assert!(Database::<8>::read(&bytes).is_err());
    // The same snapshot with the one assigned id loads fine.
    let good = rmp_serde::to_vec(&(
        vec!["a".to_string()],
        vec![1u64],
        vec![vec![0u8, 1, 0, 0, 0, 0, 0, 0]],
        Vec::<(u64, Vec<u8>)>::new(),
    ))
    .unwrap();
    let db = Database::<8>::read(&good).unwrap();
    assert_eq!(db.horizontal_query(&key(1)), Some(vec!["a".to_string()]));
}

#[test]
fn snapshots_with_broken_probe_runs_are_rejected() {
    // Value 9 stored at slot 5 while its home slot is 1 and the run between
    // them is empty: lookup could never reach it, so the array is refused.
    let bytes = rmp_serde::to_vec(&(
        vec!["a".to_string()],
        vec![1u64],
        vec![vec![0u8, 0, 0, 0, 0, 9, 0, 0]],
        Vec::<(u64, Vec<u8>)>::new(),
    ))
    .unwrap();
    assert!(Database::<8>::read(&bytes).is_err());
}

#[test]
fn malformed_snapshots_are_rejected() {
    assert!(Database::<8>::read(&[0xc1, 0x00, 0xff]).is_err());
    assert!(Database::<8>::read(&[]).is_err());
    // A snapshot taken at one inline width does not load at another.
    let mut db = Database::<8>::default();
    db.set_flag(key(1), "a").unwrap();
    let bytes = db.dump().unwrap();
    assert!(Database::<4>::read(bytes.as_slice()).is_err());
    assert!(Database::<8>::read(bytes.as_slice()).is_ok());
}
