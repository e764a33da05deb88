use block_store::engine::{Entry, KvEngine};
use block_store::journal::{encode_record, replay, to_journal};
use rand::rngs::StdRng;
use rand::{Rng, SeedableRng};
use std::collections::BTreeMap;

fn listing(engine: &KvEngine) -> Vec<(Vec<u8>, Vec<u8>)> {
    let mut out = Vec::new();
    let mut i = 0;
    while let Some(entry) = engine.nth(i) {
        out.push((entry.key.clone(), entry.value.clone()));
        i += 1;
    }
    assert_eq!(i, engine.len());
    out
}

#[test]
fn new_engine_is_empty() {
    let engine = KvEngine::new();
    assert_eq!(engine.len(), 0);
    assert!(engine.nth(0).is_none());
    assert_eq!(engine.get(&[1]), None);
    assert!(engine.floor(&[255]).is_none());
    assert_eq!(engine.seek(&[1]), 0);
}

#[test]
fn put_keeps_key_order() {
    let mut engine = KvEngine::new();
    engine.put(vec![5], vec![50]);
    engine.put(vec![1], vec![10]);
    engine.put(vec![3, 0], vec![30]);
    engine.put(vec![3], vec![31]);
    engine.put(vec![], vec![0]);
    assert_eq!(
        listing(&engine),
        vec![
            (vec![], vec![0]),
            (vec![1], vec![10]),
            (vec![3], vec![31]),
            (vec![3, 0], vec![30]),
            (vec![5], vec![50]),
        ]
    );
    assert_eq!(engine.nth(2), Some(&Entry { key: vec![3], value: vec![31] }));
    assert!(engine.nth(5).is_none());
}

#[test]
fn put_replaces_the_value_of_a_key() {
    let mut engine = KvEngine::new();
    engine.put(vec![1], vec![10]);
    engine.put(vec![2], vec![20]);
    engine.put(vec![1], vec![11, 12]);
    assert_eq!(engine.len(), 2);
    assert_eq!(engine.get(&[1]), Some(&vec![11, 12]));
    assert_eq!(engine.get(&[2]), Some(&vec![20]));
    assert_eq!(engine.get(&[3]), None);
    assert_eq!(engine.get(&[]), None);
}

#[test]
fn seek_counts_the_keys_before() {
    let mut engine = KvEngine::new();
    for k in [10u8, 20, 30, 40] {
        engine.put(vec![k], vec![]);
    }
    assert_eq!(engine.seek(&[]), 0);
    assert_eq!(engine.seek(&[10]), 0);
    assert_eq!(engine.seek(&[10, 0]), 1);
    assert_eq!(engine.seek(&[25]), 2);
    assert_eq!(engine.seek(&[40]), 3);
    assert_eq!(engine.seek(&[41]), 4);
}

#[test]
fn floor_finds_the_greatest_key_not_after() {
    let mut engine = KvEngine::new();
    for k in [10u8, 20, 30] {
        engine.put(vec![k], vec![k + 1]);
    }
    assert!(engine.floor(&[9]).is_none());
    assert_eq!(engine.floor(&[10]).unwrap().key, vec![10]);
    assert_eq!(engine.floor(&[19, 255]).unwrap().key, vec![10]);
    assert_eq!(engine.floor(&[20]).unwrap().value, vec![21]);
    assert_eq!(engine.floor(&[255]).unwrap().key, vec![30]);
}

#[test]
fn engine_agrees_with_an_ordered_map() {
    let mut rng = StdRng::seed_from_u64(21);
    for _ in 0..50 {
        let mut engine = KvEngine::new();
        let mut model: BTreeMap<Vec<u8>, Vec<u8>> = BTreeMap::new();
        for _ in 0..rng.gen_range(0..40) {
            let key: Vec<u8> = (0..rng.gen_range(0..3)).map(|_| rng.gen_range(0..4)).collect();
            let value: Vec<u8> = (0..rng.gen_range(0..3)).map(|_| rng.gen()).collect();
            engine.put(key.clone(), value.clone());
            model.insert(key, value);
        }
        let want: Vec<(Vec<u8>, Vec<u8>)> =
            model.iter().map(|(k, v)| (k.clone(), v.clone())).collect();
        assert_eq!(listing(&engine), want);
        for _ in 0..20 {
            let key: Vec<u8> = (0..rng.gen_range(0..3)).map(|_| rng.gen_range(0..4)).collect();
            assert_eq!(engine.get(&key), model.get(&key));
            assert_eq!(engine.seek(&key), model.range(..key.clone()).count());
            let floor = model.range(..=key.clone()).next_back();
            assert_eq!(
                engine.floor(&key).map(|e| (&e.key, &e.value)),
                floor.map(|(k, v)| (k, v))
            );
        }
    }
}

#[test]
fn entry_clone_is_equal() {
    let entry = Entry { key: vec![1, 2], value: vec![3] };
    assert_eq!(entry.clone(), entry);
}

#[test]
fn record_has_lengths_then_key_then_value() {
    assert_eq!(
        encode_record(&[7, 8], &[9]),
        vec![0, 0, 0, 0, 0, 0, 0, 2, 0, 0, 0, 0, 0, 0, 0, 1, 7, 8, 9]
    );
    assert_eq!(encode_record(&[], &[]), vec![0; 16]);
}

#[test]
fn replay_takes_the_records_in_order() {
    let mut journal = Vec::new();
    journal.extend(encode_record(&[2], &[20]));
    journal.extend(encode_record(&[1], &[10]));
    journal.extend(encode_record(&[2], &[21]));
    let (engine, settled) = replay(&journal);
    assert_eq!(settled, journal.len());
    assert_eq!(listing(&engine), vec![(vec![1], vec![10]), (vec![2], vec![21])]);
    let (none, zero) = replay(&[]);
    assert_eq!(none.len(), 0);
    assert_eq!(zero, 0);
}

#[test]
fn replay_leaves_out_a_torn_record() {
    let whole = encode_record(&[1], &[10, 11]);
    let torn = encode_record(&[2], &[20, 21, 22]);
    for written in 0..torn.len() {
        let mut journal = whole.clone();
        journal.extend_from_slice(&torn[..written]);
        let (engine, settled) = replay(&journal);
        assert_eq!(settled, whole.len());
        assert_eq!(listing(&engine), vec![(vec![1], vec![10, 11])]);
    }
    let mut journal = whole.clone();
    journal.extend_from_slice(&torn);
    let (engine, settled) = replay(&journal);
    assert_eq!(settled, journal.len());
    assert_eq!(engine.len(), 2);
}

#[test]
fn replay_stops_at_a_length_beyond_the_end() {
    let mut journal = encode_record(&[1], &[1]);
    let settled_at = journal.len();
    journal.extend_from_slice(&[255; 16]);
    journal.extend_from_slice(&[0; 40]);
    let (engine, settled) = replay(&journal);
    assert_eq!(settled, settled_at);
    assert_eq!(engine.len(), 1);
}

#[test]
fn journal_recovers_the_engine() {
    let mut rng = StdRng::seed_from_u64(22);
    for _ in 0..50 {
        let mut engine = KvEngine::new();
        let mut log = Vec::new();
        for _ in 0..rng.gen_range(0..20) {
            let key: Vec<u8> = (0..rng.gen_range(0..4)).map(|_| rng.gen_range(0..4)).collect();
            let value: Vec<u8> = (0..rng.gen_range(0..5)).map(|_| rng.gen()).collect();
            log.extend(encode_record(&key, &value));
            engine.put(key, value);
        }
        let (from_log, settled) = replay(&log);
        assert_eq!(settled, log.len());
        assert_eq!(listing(&from_log), listing(&engine));
        let snapshot = to_journal(&engine);
        let (from_snapshot, settled) = replay(&snapshot);
        assert_eq!(settled, snapshot.len());
        assert_eq!(listing(&from_snapshot), listing(&engine));
    }
}
