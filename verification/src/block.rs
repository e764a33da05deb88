//! Blocks, and the keys under which the engine holds them.

use crate::bytes::{
    be64, be64_value, common_prefix, copy_bytes, lemma_be64_ordered, lemma_be64_read_back,
    lemma_be64_value_bounds, lemma_be64_write_back, lex_lt, push_be64, read_be64, same_bytes,
};
use vstd::prelude::*;

verus! {

/// The unit of persistence: a numbered record with an encoded payload.
#[derive(Debug, PartialEq, Eq)]
pub struct Block {
    /// The block's number. The numbers of a chain rise by one from the first
    /// block number of its genesis.
    pub number: u64,
    /// The block's content, encoded. The store does not look inside.
    pub payload: Vec<u8>,
}

/// What a block holds, as mathematical values.
pub ghost struct BlockView {
    pub number: u64,
    pub payload: Seq<u8>,
}

impl View for Block {
    type V = BlockView;

    open spec fn view(&self) -> BlockView {
        BlockView { number: self.number, payload: self.payload@ }
    }
}

impl Clone for Block {
    fn clone(&self) -> (copy: Self)
        ensures
            copy@ == self@,
    {
        Block { number: self.number, payload: copy_bytes(self.payload.as_slice()) }
    }
}

impl Block {
    /// The block of the given number and payload.
    pub fn new(number: u64, payload: Vec<u8>) -> (block: Block)
        ensures
            block@ == (BlockView { number, payload: payload@ }),
    {
        Block { number, payload }
    }

    /// Whether two blocks are equal: same number, same payload byte for byte.
    pub fn same(&self, other: &Block) -> (same: bool)
        ensures
            same == (self@ == other@),
    {
        self.number == other.number && same_bytes(
            self.payload.as_slice(),
            other.payload.as_slice(),
        )
    }
}

/// The views of a run of blocks.
pub open spec fn block_views(blocks: Seq<Block>) -> Seq<BlockView> {
    Seq::new(blocks.len(), |i: int| blocks[i]@)
}

/// The first byte of the one key that holds the genesis record.
pub const GENESIS_TAG: u8 = 0x47;

/// The first byte of every key that holds a block.
pub const BLOCK_TAG: u8 = 0x62;

/// The key of the genesis record. It lies outside the namespace of the block
/// keys and comes before all of them.
pub open spec fn genesis_key() -> Seq<u8> {
    seq![GENESIS_TAG]
}

/// The key of the block with number `n`: the block tag, then the number in
/// eight bytes, most significant first.
pub open spec fn block_key(n: u64) -> Seq<u8> {
    seq![BLOCK_TAG] + be64(n)
}

/// The block number that `key` is the key of, if it is a block key.
pub open spec fn block_number_of(key: Seq<u8>) -> Option<u64> {
    if key.len() == 9 && key[0] == BLOCK_TAG {
        Some(be64_value(key.subrange(1, 9)) as u64)
    } else {
        None
    }
}

/// Decoding a block key gives the block number back.
pub proof fn lemma_block_key_round_trip(n: u64)
    ensures
        block_key(n).len() == 9,
        block_number_of(block_key(n)) == Some(n),
{
    lemma_be64_read_back(n);
    assert(block_key(n).subrange(1, 9) =~= be64(n));
}

/// Every block key is the key of the number it decodes to, and of no other.
pub proof fn lemma_block_key_canonical(key: Seq<u8>)
    requires
        block_number_of(key) is Some,
    ensures
        block_key(block_number_of(key)->0) == key,
{
    lemma_be64_write_back(key.subrange(1, 9));
    assert(block_key(block_number_of(key)->0) =~= key);
}

/// Block keys are ordered as their numbers are, so a scan of the engine in
/// key order visits the blocks in ascending numeric order.
pub proof fn lemma_block_keys_ordered(a: u64, b: u64)
    ensures
        lex_lt(block_key(a), block_key(b)) <==> a < b,
        block_key(a) == block_key(b) <==> a == b,
{
    lemma_be64_ordered(a, b);
    lemma_be64_read_back(a);
    lemma_be64_read_back(b);
    lemma_lex_behind_tag(BLOCK_TAG, be64(a), be64(b));
    lemma_block_key_round_trip(a);
    lemma_block_key_round_trip(b);
}

/// The genesis key is no block key and comes before every block key.
pub proof fn lemma_genesis_key_apart(n: u64)
    ensures
        block_number_of(genesis_key()) is None,
        genesis_key() != block_key(n),
        lex_lt(genesis_key(), block_key(n)),
{
    assert(common_prefix(genesis_key(), block_key(n), 0));
    assert(genesis_key()[0] != block_key(n)[0]);
}

/// Two byte strings behind the same first byte are ordered as they are
/// without it.
pub proof fn lemma_lex_behind_tag(tag: u8, x: Seq<u8>, y: Seq<u8>)
    ensures
        lex_lt(seq![tag] + x, seq![tag] + y) <==> lex_lt(x, y),
{
    let a = seq![tag] + x;
    let b = seq![tag] + y;
    if lex_lt(x, y) {
        let k = choose|k: int| #[trigger]
            common_prefix(x, y, k) && k < y.len() && (k == x.len() || x[k] < y[k]);
        assert forall|j: int| 0 <= j < k + 1 implies a[j] == b[j] by {
            if j > 0 {
                assert(a[j] == x[j - 1]);
                assert(b[j] == y[j - 1]);
            }
        }
        assert(common_prefix(a, b, k + 1));
        if k < x.len() {
            assert(a[k + 1] == x[k]);
            assert(b[k + 1] == y[k]);
        }
    }
    if lex_lt(a, b) {
        let k = choose|k: int| #[trigger]
            common_prefix(a, b, k) && k < b.len() && (k == a.len() || a[k] < b[k]);
        assert(a[0] == b[0]);
        assert(k > 0);
        assert forall|j: int| 0 <= j < k - 1 implies x[j] == y[j] by {
            assert(a[j + 1] == x[j]);
            assert(b[j + 1] == y[j]);
        }
        assert(common_prefix(x, y, k - 1));
        if k < a.len() {
            assert(a[k] == x[k - 1]);
            assert(b[k] == y[k - 1]);
        }
    }
}

/// The key of the genesis record.
pub fn encode_genesis_key() -> (key: Vec<u8>)
    ensures
        key@ == genesis_key(),
{
    let mut key: Vec<u8> = Vec::new();
    key.push(GENESIS_TAG);
    assert(key@ =~= genesis_key());
    key
}

/// The key of the block with number `n`.
pub fn encode_block_key(n: u64) -> (key: Vec<u8>)
    ensures
        key@ == block_key(n),
{
    let mut key: Vec<u8> = Vec::new();
    key.push(BLOCK_TAG);
    push_be64(&mut key, n);
    assert(key@ =~= block_key(n));
    key
}

/// The block number that `key` is the key of, if it is a block key.
pub fn decode_block_key(key: &[u8]) -> (number: Option<u64>)
    ensures
        number == block_number_of(key@),
{
    if key.len() != 9 || key[0] != BLOCK_TAG {
        return None;
    }
    let number = read_be64(key, 1);
    proof {
        lemma_be64_value_bounds(key@.subrange(1, 9));
    }
    number
}

} // verus!
