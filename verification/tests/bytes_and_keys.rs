use block_store::block::{
    decode_block_key, encode_block_key, encode_genesis_key, Block, BLOCK_TAG, GENESIS_TAG,
};
use block_store::bytes::{
    append_bytes, copy_bytes, copy_range, key_order, push_be64, read_be64, same_bytes, KeyOrder,
};
use block_store::error::StoreError;
use block_store::genesis::GenesisRecord;
use rand::rngs::StdRng;
use rand::{Rng, SeedableRng};

#[test]
fn be64_is_most_significant_first() {
    let mut out = vec![0xff];
    push_be64(&mut out, 0x0102_0304_0506_0708);
    assert_eq!(out, vec![0xff, 1, 2, 3, 4, 5, 6, 7, 8]);
    let mut zero = Vec::new();
    push_be64(&mut zero, 0);
    assert_eq!(zero, vec![0; 8]);
    let mut max = Vec::new();
    push_be64(&mut max, u64::MAX);
    assert_eq!(max, vec![0xff; 8]);
}

#[test]
fn be64_agrees_with_std() {
    let mut rng = StdRng::seed_from_u64(11);
    for _ in 0..200 {
        let n: u64 = rng.gen();
        let mut out = Vec::new();
        push_be64(&mut out, n);
        assert_eq!(out, n.to_be_bytes().to_vec());
        assert_eq!(read_be64(&out, 0), Some(n));
    }
}

#[test]
fn read_be64_needs_eight_bytes() {
    let bytes = vec![0, 0, 0, 0, 0, 0, 1, 2, 9];
    assert_eq!(read_be64(&bytes, 0), Some(0x0102));
    assert_eq!(read_be64(&bytes, 1), Some(0x010209));
    assert_eq!(read_be64(&bytes, 2), None);
    assert_eq!(read_be64(&bytes, usize::MAX), None);
    assert_eq!(read_be64(&[1, 2, 3], 0), None);
    assert_eq!(read_be64(&[], 0), None);
}

#[test]
fn key_order_is_lexicographic() {
    assert_eq!(key_order(&[], &[]), KeyOrder::Same);
    assert_eq!(key_order(&[], &[0]), KeyOrder::Before);
    assert_eq!(key_order(&[0], &[]), KeyOrder::After);
    assert_eq!(key_order(&[1, 2, 3], &[1, 2, 3]), KeyOrder::Same);
    assert_eq!(key_order(&[1, 2], &[1, 2, 0]), KeyOrder::Before);
    assert_eq!(key_order(&[1, 3], &[1, 2, 9]), KeyOrder::After);
    assert_eq!(key_order(&[0, 255], &[1]), KeyOrder::Before);
    assert_eq!(key_order(&[2], &[1, 255, 255]), KeyOrder::After);
}

#[test]
fn key_order_agrees_with_slice_order() {
    let mut rng = StdRng::seed_from_u64(12);
    for _ in 0..500 {
        let a: Vec<u8> = (0..rng.gen_range(0..4)).map(|_| rng.gen_range(0..3)).collect();
        let b: Vec<u8> = (0..rng.gen_range(0..4)).map(|_| rng.gen_range(0..3)).collect();
        let want = if a < b {
            KeyOrder::Before
        } else if a == b {
            KeyOrder::Same
        } else {
            KeyOrder::After
        };
        assert_eq!(key_order(&a, &b), want);
        assert_eq!(same_bytes(&a, &b), a == b);
    }
}

#[test]
fn byte_copies() {
    assert_eq!(copy_bytes(&[1, 2, 3]), vec![1, 2, 3]);
    assert_eq!(copy_bytes(&[]), Vec::<u8>::new());
    assert_eq!(copy_range(&[1, 2, 3, 4], 1, 3), vec![2, 3]);
    assert_eq!(copy_range(&[1, 2, 3, 4], 4, 4), Vec::<u8>::new());
    let mut out = vec![9];
    append_bytes(&mut out, &[8, 7]);
    assert_eq!(out, vec![9, 8, 7]);
}

#[test]
fn keys_have_their_namespace() {
    assert_eq!(encode_genesis_key(), vec![GENESIS_TAG]);
    assert_eq!(encode_genesis_key(), vec![0x47]);
    assert_eq!(encode_block_key(1), vec![0x62, 0, 0, 0, 0, 0, 0, 0, 1]);
    assert_eq!(encode_block_key(0x0102), vec![BLOCK_TAG, 0, 0, 0, 0, 0, 0, 1, 2]);
    assert_eq!(encode_block_key(u64::MAX), vec![0x62, 255, 255, 255, 255, 255, 255, 255, 255]);
}

#[test]
fn block_keys_decode() {
    assert_eq!(decode_block_key(&encode_block_key(0)), Some(0));
    assert_eq!(decode_block_key(&encode_block_key(77)), Some(77));
    assert_eq!(decode_block_key(&encode_block_key(u64::MAX)), Some(u64::MAX));
    assert_eq!(decode_block_key(&encode_genesis_key()), None);
    assert_eq!(decode_block_key(&[]), None);
    assert_eq!(decode_block_key(&[0x62, 0, 0, 0, 0, 0, 0, 1]), None);
    assert_eq!(decode_block_key(&[0x62, 0, 0, 0, 0, 0, 0, 0, 1, 0]), None);
    assert_eq!(decode_block_key(&[0x63, 0, 0, 0, 0, 0, 0, 0, 1]), None);
}

#[test]
fn block_keys_sort_as_numbers() {
    let mut rng = StdRng::seed_from_u64(13);
    for _ in 0..500 {
        let a: u64 = rng.gen();
        let b: u64 = if rng.gen() { a.wrapping_add(rng.gen_range(0..3)) } else { rng.gen() };
        let want = if a < b {
            KeyOrder::Before
        } else if a == b {
            KeyOrder::Same
        } else {
            KeyOrder::After
        };
        assert_eq!(key_order(&encode_block_key(a), &encode_block_key(b)), want);
        assert_eq!(key_order(&encode_genesis_key(), &encode_block_key(a)), KeyOrder::Before);
    }
    assert_eq!(key_order(&encode_block_key(255), &encode_block_key(256)), KeyOrder::Before);
}

#[test]
fn genesis_has_a_fixed_form() {
    let genesis = GenesisRecord::new(3, 0x0100, vec![0xaa, 0xbb]);
    assert_eq!(
        genesis.encode(),
        vec![0, 0, 0, 0, 0, 0, 0, 3, 0, 0, 0, 0, 0, 0, 1, 0, 0xaa, 0xbb]
    );
    assert_eq!(GenesisRecord::decode(&genesis.encode()), Some(genesis.clone()));
    let bare = GenesisRecord::new(0, 0, vec![]);
    assert_eq!(bare.encode(), vec![0; 16]);
    assert_eq!(GenesisRecord::decode(&[0; 16]), Some(bare));
    assert_eq!(GenesisRecord::decode(&[0; 15]), None);
    assert_eq!(GenesisRecord::decode(&[]), None);
}

#[test]
fn genesis_round_trips() {
    let mut rng = StdRng::seed_from_u64(14);
    for _ in 0..200 {
        let root: Vec<u8> = (0..rng.gen_range(0..40)).map(|_| rng.gen()).collect();
        let genesis = GenesisRecord::new(rng.gen(), rng.gen(), root);
        let bytes = genesis.encode();
        let back = GenesisRecord::decode(&bytes).unwrap();
        assert_eq!(back, genesis);
        assert!(back.same(&genesis));
        assert_eq!(back.encode(), bytes);
    }
}

#[test]
fn genesis_equality_is_by_fields() {
    let genesis = GenesisRecord::new(1, 2, vec![3]);
    assert!(genesis.same(&genesis.clone()));
    assert!(!genesis.same(&GenesisRecord::new(9, 2, vec![3])));
    assert!(!genesis.same(&GenesisRecord::new(1, 9, vec![3])));
    assert!(!genesis.same(&GenesisRecord::new(1, 2, vec![9])));
    assert!(!genesis.same(&GenesisRecord::new(1, 2, vec![3, 0])));
    assert_eq!(genesis.fork, 1);
    assert_eq!(genesis.first_block, 2);
    assert_eq!(genesis.root, vec![3]);
}

#[test]
fn block_equality_is_by_number_and_payload() {
    let block = Block::new(4, vec![1, 2]);
    assert!(block.same(&block.clone()));
    assert_eq!(block.clone(), block);
    assert!(!block.same(&Block::new(5, vec![1, 2])));
    assert!(!block.same(&Block::new(4, vec![1, 3])));
    assert!(!block.same(&Block::new(4, vec![1])));
    assert_eq!(block.number, 4);
    assert_eq!(block.payload, vec![1, 2]);
}

#[test]
fn fatal_errors_abort_the_start() {
    assert!(StoreError::GenesisMismatch.is_fatal());
    assert!(StoreError::EncodingFailure.is_fatal());
    assert!(!StoreError::NonSequentialAppend.is_fatal());
    assert!(!StoreError::StorageIOFailure.is_fatal());
    assert!(!StoreError::LockContention.is_fatal());
}
