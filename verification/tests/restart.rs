use block_store::block::Block;
use block_store::error::StoreError;
use block_store::genesis::GenesisRecord;
use block_store::handle::{close_dir, open_dir};
use block_store::journal::encode_record;
use block_store::lock::LockRegistry;
use block_store::store::{dump, BlockStore};
use rand::rngs::StdRng;
use rand::{Rng, SeedableRng};
use std::io::{Read, Seek, SeekFrom, Write};
use tempfile::{NamedTempFile, TempDir};

fn read_journal(file: &mut NamedTempFile) -> Vec<u8> {
    let mut journal = Vec::new();
    let mut reader = file.reopen().unwrap();
    reader.read_to_end(&mut journal).unwrap();
    journal
}

fn write_journal(file: &mut NamedTempFile, journal: &[u8]) {
    let file = file.as_file_mut();
    file.set_len(0).unwrap();
    file.seek(SeekFrom::Start(0)).unwrap();
    file.write_all(journal).unwrap();
    file.sync_all().unwrap();
}

#[test]
fn test_reopen_rocksdb() {
    let mut rng = StdRng::seed_from_u64(41);
    let dir = TempDir::new().unwrap();
    let name = dir.path().to_string_lossy().into_owned().into_bytes();
    let mut file = NamedTempFile::new_in(dir.path()).unwrap();
    let first: u64 = rng.gen_range(0..1000);
    let root: Vec<u8> = (0..32).map(|_| rng.gen()).collect();
    let genesis = GenesisRecord::new(rng.gen(), first, root);
    let blocks: Vec<Block> = (0..5)
        .map(|i| Block::new(first + i, (0..rng.gen_range(1..100)).map(|_| rng.gen()).collect()))
        .collect();
    let mut registry = LockRegistry::new();
    let mut want = vec![];
    for b in &blocks {
        let journal = read_journal(&mut file);
        let (mut store, settled) =
            open_dir(&mut registry, &name, genesis.clone(), &journal).unwrap();
        assert_eq!(settled, journal.len());
        store.store_next_block(b.clone()).unwrap();
        want.push(b.clone());
        assert_eq!(want, dump(&store));
        let journal = close_dir(&mut registry, &name, store);
        write_journal(&mut file, &journal);
    }
    let journal = read_journal(&mut file);
    let (store, _) = open_dir(&mut registry, &name, genesis, &journal).unwrap();
    assert_eq!(blocks, dump(&store));
}

#[test]
fn second_handle_on_a_directory_is_refused() {
    let genesis = GenesisRecord::new(1, 0, vec![]);
    let mut registry = LockRegistry::new();
    let (mut first, _) = open_dir(&mut registry, b"node/db", genesis.clone(), &[]).unwrap();
    first.store_next_block(Block::new(0, vec![1])).unwrap();
    assert!(registry.is_held(b"node/db"));
    assert_eq!(
        open_dir(&mut registry, b"node/db", genesis.clone(), &[]).err(),
        Some(StoreError::LockContention)
    );
    assert_eq!(
        open_dir(&mut registry, b"node/db", GenesisRecord::new(2, 0, vec![]), &[9]).err(),
        Some(StoreError::LockContention)
    );
    assert!(registry.is_held(b"node/db"));
    assert_eq!(dump(&first), vec![Block::new(0, vec![1])]);
    let (other, _) = open_dir(&mut registry, b"node/db2", genesis.clone(), &[]).unwrap();
    assert_eq!(dump(&other), vec![]);
    let journal = close_dir(&mut registry, b"node/db", first);
    assert!(!registry.is_held(b"node/db"));
    assert!(registry.is_held(b"node/db2"));
    let (again, _) = open_dir(&mut registry, b"node/db", genesis, &journal).unwrap();
    assert_eq!(dump(&again), vec![Block::new(0, vec![1])]);
}

#[test]
fn failed_open_gives_the_lock_back() {
    let genesis = GenesisRecord::new(1, 0, vec![]);
    let other = GenesisRecord::new(2, 0, vec![]);
    let mut registry = LockRegistry::new();
    let (mut store, _) = open_dir(&mut registry, b"db", genesis.clone(), &[]).unwrap();
    store.store_next_block(Block::new(0, vec![1])).unwrap();
    let journal = close_dir(&mut registry, b"db", store);
    assert_eq!(
        open_dir(&mut registry, b"db", other, &journal).err(),
        Some(StoreError::GenesisMismatch)
    );
    assert!(!registry.is_held(b"db"));
    let mut garbage = journal.clone();
    garbage.extend(encode_record(&[0x01], &[]));
    assert_eq!(
        open_dir(&mut registry, b"db", genesis.clone(), &garbage).err(),
        Some(StoreError::EncodingFailure)
    );
    assert!(!registry.is_held(b"db"));
    let mut torn = journal.clone();
    torn.extend_from_slice(&[0, 0, 0]);
    let (store, settled) = open_dir(&mut registry, b"db", genesis, &torn).unwrap();
    assert_eq!(settled, journal.len());
    assert_eq!(store.last_block_number(), Some(0));
}

#[test]
fn registry_takes_and_gives_back() {
    let mut registry = LockRegistry::new();
    assert!(!registry.is_held(b"a"));
    assert_eq!(registry.acquire(b"a"), Ok(()));
    assert_eq!(registry.acquire(b"b"), Ok(()));
    assert_eq!(registry.acquire(b"a"), Err(StoreError::LockContention));
    assert_eq!(registry.acquire(b"b"), Err(StoreError::LockContention));
    assert!(registry.release(b"a"));
    assert!(!registry.release(b"a"));
    assert!(!registry.release(b"c"));
    assert!(registry.is_held(b"b"));
    assert_eq!(registry.acquire(b"a"), Ok(()));
    assert_eq!(registry.acquire(b""), Ok(()));
    assert_eq!(registry.acquire(b""), Err(StoreError::LockContention));
}

#[test]
fn restart_before_every_append() {
    let mut rng = StdRng::seed_from_u64(42);
    for _ in 0..10 {
        let first: u64 = rng.gen();
        let genesis = GenesisRecord::new(rng.gen(), first, vec![rng.gen(); 32]);
        let count = rng.gen_range(0..12).min(u64::MAX - first);
        let mut registry = LockRegistry::new();
        let mut journal = Vec::new();
        let mut want = Vec::new();
        for i in 0..count {
            let (mut store, _) =
                open_dir(&mut registry, b"db", genesis.clone(), &journal).unwrap();
            assert_eq!(dump(&store), want);
            let block = Block::new(first + i, (0..rng.gen_range(0..9)).map(|_| rng.gen()).collect());
            store.store_next_block(block.clone()).unwrap();
            want.push(block);
            assert_eq!(dump(&store), want);
            journal = close_dir(&mut registry, b"db", store);
        }
    }
}
