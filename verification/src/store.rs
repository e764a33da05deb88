//! The block store: the contract that every store of finalized blocks
//! keeps, and the engine-backed store that keeps it.

use crate::block::{
    block_key, block_number_of, block_views, decode_block_key, encode_block_key,
    encode_genesis_key, genesis_key, lemma_block_key_canonical, lemma_block_key_round_trip,
    lemma_block_keys_ordered, lemma_genesis_key_apart, Block, BlockView,
};
use crate::bytes::{copy_bytes, lemma_lex_irreflexive, lemma_lex_transitive, lex_le, lex_lt};
use crate::engine::{
    ascending, floor_of, holds, lemma_holds, lemma_rank_found, lemma_rank_parts,
    lemma_with_entry_at_end, rank, value_at, with_entry, Entry, KvEngine, Listing,
};
use crate::error::StoreError;
use crate::journal::{encode_record, record_bytes};
use crate::genesis::{genesis_bytes, parse_genesis, GenesisRecord, GenesisView};
use vstd::prelude::*;

verus! {

/// The numbers of `blocks` rise by one from `first`, without a gap.
pub open spec fn consecutive(first: u64, blocks: Seq<BlockView>) -> bool {
    forall|i: int| 0 <= i < blocks.len() ==> (#[trigger] blocks[i]).number == first + i
}

/// The number that the next block must have, after `blocks` were persisted
/// under genesis `g`: the first block number of the genesis for an empty
/// store, else the successor of the last number. There is none once the
/// numbers are used up.
pub open spec fn next_number(g: GenesisView, blocks: Seq<BlockView>) -> Option<u64> {
    if g.first_block + blocks.len() <= u64::MAX {
        Some((g.first_block + blocks.len()) as u64)
    } else {
        None
    }
}

/// The number of the last of `blocks`, persisted under genesis `g`.
pub open spec fn last_number(g: GenesisView, blocks: Seq<BlockView>) -> Option<u64> {
    if blocks.len() == 0 {
        None
    } else {
        Some(blocks.last().number)
    }
}

/// The block with number `number` among `blocks`, persisted under genesis
/// `g`: absent below the first block number and above the last persisted one.
pub open spec fn block_at(g: GenesisView, blocks: Seq<BlockView>, number: u64) -> Option<
    BlockView,
> {
    if g.first_block <= number < g.first_block + blocks.len() {
        Some(blocks[number - g.first_block])
    } else {
        None
    }
}

/// What an append of `block` does to a store that holds `blocks` under
/// genesis `g`: the block joins them if it has the next number, and is
/// refused as out of sequence otherwise.
pub open spec fn append_outcome(g: GenesisView, blocks: Seq<BlockView>, block: BlockView) -> Result<
    Seq<BlockView>,
    StoreError,
> {
    if next_number(g, blocks) == Some(block.number) {
        Ok(blocks.push(block))
    } else {
        Err(StoreError::NonSequentialAppend)
    }
}

/// The entry that holds a block: its key is made of the number, its value is
/// the payload.
pub open spec fn entry_of(block: BlockView) -> (Seq<u8>, Seq<u8>) {
    (block_key(block.number), block.payload)
}

/// The block that an entry holds, if its key is a block key.
pub open spec fn block_of(entry: (Seq<u8>, Seq<u8>)) -> Option<BlockView> {
    match block_number_of(entry.0) {
        Some(number) => Some(BlockView { number, payload: entry.1 }),
        None => None,
    }
}

/// Reading the entry of a block gives the block back, number and payload.
pub proof fn law_block_round_trip(block: BlockView)
    ensures
        block_of(entry_of(block)) == Some(block),
{
    lemma_block_key_round_trip(block.number);
}

/// The entry that holds `block`.
pub fn block_entry(block: &Block) -> (entry: Entry)
    ensures
        entry@ == entry_of(block@),
{
    Entry { key: encode_block_key(block.number), value: copy_bytes(block.payload.as_slice()) }
}

/// The block that `entry` holds, if its key is a block key.
pub fn entry_block(entry: &Entry) -> (block: Option<Block>)
    ensures
        block is Some <==> block_of(entry@) is Some,
        block is Some ==> block->0@ == block_of(entry@)->0,
{
    match decode_block_key(entry.key.as_slice()) {
        Some(number) => Some(Block { number, payload: copy_bytes(entry.value.as_slice()) }),
        None => None,
    }
}

/// What the engine of a store holds that is bound to genesis `g` and has
/// persisted `blocks`: the genesis record under its own key, then one entry
/// for each block.
pub open spec fn image(g: GenesisView, blocks: Seq<BlockView>) -> Listing {
    seq![(genesis_key(), genesis_bytes(g))] + Seq::new(blocks.len(), |i: int| entry_of(blocks[i]))
}

/// The blocks that a listing holds behind its first entry, numbered from the
/// first block number of `g`.
pub open spec fn blocks_listed(g: GenesisView, l: Listing) -> Seq<BlockView> {
    Seq::new(
        (l.len() - 1) as nat,
        |i: int| BlockView { number: (g.first_block + i) as u64, payload: l[i + 1].1 },
    )
}

/// `l` is what a store bound to `g` leaves in its engine: the genesis record
/// of `g` and a run of blocks without a gap, and nothing else.
pub open spec fn is_chain(g: GenesisView, l: Listing) -> bool {
    &&& l.len() >= 1
    &&& consecutive(g.first_block, blocks_listed(g, l))
    &&& l == image(g, blocks_listed(g, l))
}

/// What opening an engine that holds `l` with genesis `g` comes to: the blocks
/// that the store then holds, or the reason why it does not open.
///
/// An engine that holds nothing is fresh and opens empty. Any other must hold
/// a genesis record that decodes and equals `g`, and be the image of a run of
/// blocks.
pub open spec fn open_outcome(g: GenesisView, l: Listing) -> Result<Seq<BlockView>, StoreError> {
    if l.len() == 0 {
        Ok(Seq::empty())
    } else {
        match value_at(l, genesis_key()) {
            None => Err(StoreError::EncodingFailure),
            Some(bytes) => match parse_genesis(bytes) {
                None => Err(StoreError::EncodingFailure),
                Some(held) => if held != g {
                    Err(StoreError::GenesisMismatch)
                } else if is_chain(g, l) {
                    Ok(blocks_listed(g, l))
                } else {
                    Err(StoreError::EncodingFailure)
                },
            },
        }
    }
}

/// What the engine holds once it was opened with genesis `g`: a fresh engine
/// has the genesis record written, any other is left as it was.
pub open spec fn opened_contents(g: GenesisView, l: Listing) -> Listing {
    if l.len() == 0 {
        image(g, Seq::empty())
    } else {
        l
    }
}

/// The image of a run of blocks lists exactly those blocks.
pub proof fn lemma_image_listed(g: GenesisView, blocks: Seq<BlockView>)
    requires
        consecutive(g.first_block, blocks),
    ensures
        image(g, blocks).len() == blocks.len() + 1,
        blocks_listed(g, image(g, blocks)) == blocks,
        is_chain(g, image(g, blocks)),
{
    let l = image(g, blocks);
    assert forall|i: int| 0 <= i < blocks.len() implies #[trigger] blocks_listed(g, l)[i]
        == blocks[i] by {
        assert(l[i + 1] == entry_of(blocks[i]));
    }
    assert(blocks_listed(g, l) =~= blocks);
}

/// The image of a run of blocks is in key order, the genesis record first.
pub proof fn lemma_image_ascending(g: GenesisView, blocks: Seq<BlockView>)
    requires
        consecutive(g.first_block, blocks),
    ensures
        ascending(image(g, blocks)),
{
    let l = image(g, blocks);
    assert forall|i: int, j: int| 0 <= i < j < l.len() implies lex_lt(
        (#[trigger] l[i]).0,
        (#[trigger] l[j]).0,
    ) by {
        assert(l[j] == entry_of(blocks[j - 1]));
        if i == 0 {
            lemma_genesis_key_apart(blocks[j - 1].number);
        } else {
            assert(l[i] == entry_of(blocks[i - 1]));
            lemma_block_keys_ordered(blocks[i - 1].number, blocks[j - 1].number);
        }
    }
}

/// The image of a run of blocks has the genesis record under the genesis key,
/// and under the key of a number the payload of the block with that number.
pub proof fn lemma_image_values(g: GenesisView, blocks: Seq<BlockView>, number: u64)
    requires
        consecutive(g.first_block, blocks),
    ensures
        value_at(image(g, blocks), genesis_key()) == Some(genesis_bytes(g)),
        value_at(image(g, blocks), block_key(number)) == match block_at(g, blocks, number) {
            Some(block) => Some(block.payload),
            None => None,
        },
{
    let l = image(g, blocks);
    lemma_image_ascending(g, blocks);
    lemma_holds(l, genesis_key());
    lemma_holds(l, block_key(number));
    assert(l[0].0 == genesis_key());
    lemma_genesis_key_apart(number);
    if g.first_block <= number < g.first_block + blocks.len() {
        let i = number - g.first_block;
        assert(l[i + 1] == entry_of(blocks[i]));
    } else if holds(l, block_key(number)) {
        let r = rank(l, block_key(number)) as int;
        assert(r != 0);
        assert(l[r] == entry_of(blocks[r - 1]));
        lemma_block_keys_ordered(blocks[r - 1].number, number);
    }
}

/// Appending the block with the next number adds its entry at the end of the
/// image.
pub proof fn lemma_image_append(g: GenesisView, blocks: Seq<BlockView>, block: BlockView)
    requires
        consecutive(g.first_block, blocks),
        next_number(g, blocks) == Some(block.number),
    ensures
        consecutive(g.first_block, blocks.push(block)),
        with_entry(image(g, blocks), block_key(block.number), block.payload) == image(
            g,
            blocks.push(block),
        ),
{
    let l = image(g, blocks);
    let key = block_key(block.number);
    assert forall|i: int| 0 <= i < l.len() implies lex_lt((#[trigger] l[i]).0, key) by {
        if i == 0 {
            lemma_genesis_key_apart(block.number);
        } else {
            assert(l[i] == entry_of(blocks[i - 1]));
            lemma_block_keys_ordered(blocks[i - 1].number, block.number);
        }
    }
    lemma_with_entry_at_end(l, key, block.payload);
    assert(l.push((key, block.payload)) =~= image(g, blocks.push(block)));
}

/// The greatest key of an image that is no greater than the key of the
/// greatest block number is its last entry: the last block, or the genesis
/// record where there is no block.
pub proof fn lemma_image_floor(g: GenesisView, blocks: Seq<BlockView>)
    requires
        consecutive(g.first_block, blocks),
    ensures
        floor_of(image(g, blocks), block_key(u64::MAX)) == Some(image(g, blocks).last()),
        block_number_of(image(g, blocks).last().0) == last_number(g, blocks),
{
    let l = image(g, blocks);
    let bound = block_key(u64::MAX);
    lemma_image_ascending(g, blocks);
    lemma_rank_parts(l, bound);
    lemma_holds(l, bound);
    lemma_lex_irreflexive(bound);
    assert forall|i: int| 0 <= i < l.len() implies lex_le((#[trigger] l[i]).0, bound) by {
        if i == 0 {
            lemma_genesis_key_apart(u64::MAX);
        } else {
            assert(l[i] == entry_of(blocks[i - 1]));
            lemma_block_keys_ordered(blocks[i - 1].number, u64::MAX);
        }
    }
    let r = rank(l, bound) as int;
    if holds(l, bound) {
        if r < l.len() - 1 {
            assert(lex_lt(l[r].0, l[l.len() - 1].0));
            assert(lex_le(l[l.len() - 1].0, bound));
            if lex_lt(l[l.len() - 1].0, bound) {
                lemma_lex_transitive(bound, l[l.len() - 1].0, bound);
            }
        }
    } else {
        assert forall|i: int| 0 <= i < l.len() implies lex_lt((#[trigger] l[i]).0, bound) by {
            assert(lex_le(l[i].0, bound));
        }
        lemma_rank_found(l, bound, l.len() as int);
    }
    if blocks.len() == 0 {
        lemma_genesis_key_apart(0);
    } else {
        assert(l.last() == entry_of(blocks.last()));
        lemma_block_key_round_trip(blocks.last().number);
    }
}

/// In the image of a run of blocks the block keys start behind the genesis
/// record: a scan from the key of block number zero meets every block, and
/// blocks only.
pub proof fn lemma_image_block_range(g: GenesisView, blocks: Seq<BlockView>)
    requires
        consecutive(g.first_block, blocks),
    ensures
        rank(image(g, blocks), block_key(0)) == 1,
        image(g, blocks).len() == blocks.len() + 1,
        forall|k: int|
            1 <= k < image(g, blocks).len() ==> #[trigger] image(g, blocks)[k] == entry_of(
                blocks[k - 1],
            ),
{
    let l = image(g, blocks);
    let start = block_key(0);
    lemma_image_ascending(g, blocks);
    assert forall|i: int| 1 <= i < l.len() implies !lex_lt((#[trigger] l[i]).0, start) by {
        assert(l[i] == entry_of(blocks[i - 1]));
        lemma_block_keys_ordered(blocks[i - 1].number, 0);
    }
    lemma_genesis_key_apart(0);
    assert(l[0].0 == genesis_key());
    lemma_rank_found(l, start, 1);
}

/// The contract of a store of finalized blocks, bound to one genesis: it
/// takes the next block, gives any persisted block back by its number, and
/// tells the number of the last one.
pub trait BlockStore: Sized {
    /// The store is in order.
    spec fn wf(&self) -> bool;

    /// The genesis that the store is bound to.
    spec fn genesis_view(&self) -> GenesisView;

    /// The blocks that the store has persisted, in ascending order.
    spec fn blocks(&self) -> Seq<BlockView>;

    /// The numbers of the persisted blocks rise by one from the first block
    /// number of the genesis: whoever sees a number sees all numbers below it.
    proof fn lemma_gapless(&self)
        requires
            self.wf(),
        ensures
            consecutive(self.genesis_view().first_block, self.blocks()),
    ;

    /// The genesis that the store is bound to.
    fn genesis(&self) -> (genesis: GenesisRecord)
        requires
            self.wf(),
        ensures
            genesis@ == self.genesis_view(),
    ;

    /// The number of the last persisted block, `None` only while the store
    /// holds no block.
    fn last_block_number(&self) -> (last: Option<u64>)
        requires
            self.wf(),
        ensures
            last == last_number(self.genesis_view(), self.blocks()),
    ;

    /// The block with the given number, `None` for a number below the first
    /// block number of the genesis or above the last persisted one.
    fn get_block(&self, number: u64) -> (block: Option<Block>)
        requires
            self.wf(),
        ensures
            block is Some <==> block_at(self.genesis_view(), self.blocks(), number) is Some,
            block is Some ==> block->0@ == block_at(
                self.genesis_view(),
                self.blocks(),
                number,
            )->0,
    ;

    /// Persists `block` as the next block. A block that has not the next
    /// number is refused as out of sequence. Where the store fails for another
    /// reason it says which. A store that refuses or fails is left as it was.
    fn store_next_block(&mut self, block: Block) -> (outcome: Result<(), StoreError>)
        requires
            old(self).wf(),
        ensures
            final(self).wf(),
            final(self).genesis_view() == old(self).genesis_view(),
            outcome is Ok ==> append_outcome(
                old(self).genesis_view(),
                old(self).blocks(),
                block@,
            ) == Ok::<Seq<BlockView>, StoreError>(final(self).blocks()),
            outcome is Err ==> final(self).blocks() == old(self).blocks(),
            outcome == Err::<(), StoreError>(StoreError::NonSequentialAppend) <==> append_outcome(
                old(self).genesis_view(),
                old(self).blocks(),
                block@,
            ) is Err,
    ;
}

/// The block store over an ordered key-value engine. The engine holds the
/// genesis record under a key of its own and each block under the key of its
/// number; the store keeps no state beside it.
pub struct DiskBlockEngine {
    genesis: GenesisRecord,
    engine: KvEngine,
}

/// An engine that did not open, and why. The engine is as it was.
pub struct OpenFailure {
    pub error: StoreError,
    pub engine: KvEngine,
}

impl DiskBlockEngine {
    /// What the engine holds: the persisted state of the store.
    pub closed spec fn contents(&self) -> Listing {
        self.engine@
    }

    /// The engine below the store is in order.
    pub closed spec fn engine_wf(&self) -> bool {
        self.engine.wf()
    }

    /// Opens the store on `engine`, bound to `genesis`.
    ///
    /// A fresh engine has the genesis record written and opens empty. An
    /// engine that holds data opens if its genesis record equals `genesis` and
    /// the rest is a run of blocks without a gap from the first block number
    /// on. It is refused with `GenesisMismatch` where it holds another
    /// genesis, and with `EncodingFailure` where what it holds does not
    /// decode. A refused engine comes back unchanged.
    pub fn open(genesis: GenesisRecord, engine: KvEngine) -> (outcome: Result<
        DiskBlockEngine,
        OpenFailure,
    >)
        requires
            engine.wf(),
        ensures
            match outcome {
                Ok(store) => {
                    &&& store.wf()
                    &&& store.genesis_view() == genesis@
                    &&& open_outcome(genesis@, engine@) == Ok::<Seq<BlockView>, StoreError>(
                        store.blocks(),
                    )
                    &&& store.contents() == opened_contents(genesis@, engine@)
                },
                Err(failure) => {
                    &&& open_outcome(genesis@, engine@) == Err::<Seq<BlockView>, StoreError>(
                        failure.error,
                    )
                    &&& failure.engine.wf()
                    &&& failure.engine@ == engine@
                },
            },
    {
        let mut engine = engine;
        let ghost l = engine@;
        if engine.len() == 0 {
            let key = encode_genesis_key();
            let value = genesis.encode();
            proof {
                assert forall|i: int| 0 <= i < l.len() implies lex_lt(
                    (#[trigger] l[i]).0,
                    key@,
                ) by {}
                lemma_with_entry_at_end(l, key@, value@);
                assert(l.push((key@, value@)) =~= image(genesis@, Seq::empty()));
                lemma_image_listed(genesis@, Seq::empty());
            }
            engine.put(key, value);
            return Ok(DiskBlockEngine { genesis, engine });
        }
        let key = encode_genesis_key();
        let held = match engine.get(key.as_slice()) {
            Some(bytes) => GenesisRecord::decode(bytes.as_slice()),
            None => None,
        };
        let held = match held {
            Some(held) => held,
            None => {
                return Err(OpenFailure { error: StoreError::EncodingFailure, engine });
            },
        };
        if !held.same(&genesis) {
            return Err(OpenFailure { error: StoreError::GenesisMismatch, engine });
        }
        if !holds_chain(&genesis, &engine) {
            return Err(OpenFailure { error: StoreError::EncodingFailure, engine });
        }
        Ok(DiskBlockEngine { genesis, engine })
    }

    /// Closes the store and gives the engine back, with all that was
    /// persisted.
    pub fn close(self) -> (engine: KvEngine)
        requires
            self.wf(),
        ensures
            engine.wf(),
            engine@ == self.contents(),
            engine@ == image(self.genesis_view(), self.blocks()),
    {
        self.engine
    }

    /// The engine below the store, to read what is persisted.
    pub fn engine(&self) -> (engine: &KvEngine)
        requires
            self.wf(),
        ensures
            engine.wf(),
            engine@ == self.contents(),
    {
        &self.engine
    }

    /// The journal record that makes an append of `block` durable, for a
    /// host that writes it before the append. A block that would be refused
    /// has none.
    pub fn stage_next_block(&self, block: &Block) -> (staged: Result<Vec<u8>, StoreError>)
        requires
            self.wf(),
        ensures
            staged is Ok <==> append_outcome(self.genesis_view(), self.blocks(), block@) is Ok,
            staged is Ok ==> staged->Ok_0@ == record_bytes(
                block_key(block.number),
                block.payload@,
            ),
            staged is Err ==> staged->Err_0 == StoreError::NonSequentialAppend,
    {
        let fits = match self.next_block_number() {
            Some(next) => next == block.number,
            None => false,
        };
        if !fits {
            return Err(StoreError::NonSequentialAppend);
        }
        let key = encode_block_key(block.number);
        Ok(encode_record(key.as_slice(), block.payload.as_slice()))
    }

    /// The number that the next block must have, `None` once the numbers are
    /// used up.
    pub fn next_block_number(&self) -> (next: Option<u64>)
        requires
            self.wf(),
        ensures
            next == next_number(self.genesis_view(), self.blocks()),
    {
        proof {
            self.lemma_gapless();
        }
        match self.last_block_number() {
            Some(last) => last.checked_add(1),
            None => Some(self.genesis.first_block),
        }
    }

    /// All persisted blocks, read in one scan of the block keys in ascending
    /// order.
    pub fn scan_blocks(&self) -> (blocks: Vec<Block>)
        requires
            self.wf(),
        ensures
            block_views(blocks@) == self.blocks(),
    {
        let ghost l = self.engine@;
        let ghost held = self.blocks();
        let start = encode_block_key(0);
        let from = self.engine.seek(start.as_slice());
        proof {
            lemma_image_block_range(self.genesis@, held);
        }
        let mut blocks: Vec<Block> = Vec::new();
        let mut i: usize = from;
        let n: usize = self.engine.len();
        while i < n
            invariant
                l == self.engine@,
                n == l.len(),
                held.len() == n - 1,
                1 <= i <= n,
                blocks@.len() == i - 1,
                forall|k: int| 1 <= k < n ==> #[trigger] l[k] == entry_of(held[k - 1]),
                forall|k: int| 0 <= k < i - 1 ==> (#[trigger] blocks@[k])@ == held[k],
            decreases n - i,
        {
            proof {
                law_block_round_trip(held[i - 1]);
            }
            match self.engine.nth(i) {
                Some(entry) => {
                    match entry_block(entry) {
                        Some(block) => {
                            blocks.push(block);
                        },
                        None => {},
                    }
                },
                None => {},
            }
            i += 1;
        }
        assert(block_views(blocks@) =~= held);
        blocks
    }
}

/// Whether `engine` holds the genesis record of `genesis` followed by a run
/// of blocks without a gap, and nothing else.
fn holds_chain(genesis: &GenesisRecord, engine: &KvEngine) -> (chain: bool)
    requires
        engine.wf(),
    ensures
        chain == is_chain(genesis@, engine@),
{
    let ghost g = genesis@;
    let ghost l = engine@;
    let n = engine.len();
    let first = match engine.nth(0) {
        Some(entry) => entry,
        None => {
            return false;
        },
    };
    let key = encode_genesis_key();
    let value = genesis.encode();
    if !crate::bytes::same_bytes(first.key.as_slice(), key.as_slice())
        || !crate::bytes::same_bytes(first.value.as_slice(), value.as_slice()) {
        assert(image(g, blocks_listed(g, l))[0] == (genesis_key(), genesis_bytes(g)));
        return false;
    }
    let mut i: usize = 1;
    let mut number: u64 = genesis.first_block;
    while i < n
        invariant
            engine.wf(),
            l == engine@,
            g == genesis@,
            n == l.len(),
            1 <= i <= n,
            l[0] == (genesis_key(), genesis_bytes(g)),
            i < n ==> number == g.first_block + (i - 1),
            g.first_block + (i - 1) <= u64::MAX + 1,
            forall|k: int|
                1 <= k < i ==> g.first_block + k - 1 <= u64::MAX && (#[trigger] l[k]).0
                    == block_key((g.first_block + k - 1) as u64),
        decreases n - i,
    {
        let entry = match engine.nth(i) {
            Some(entry) => entry,
            None => {
                assert(false);
                return false;
            },
        };
        let found = decode_block_key(entry.key.as_slice());
        let fits = match found {
            Some(found) => found == number,
            None => false,
        };
        if !fits {
            proof {
                if is_chain(g, l) {
                    let listed = blocks_listed(g, l);
                    assert(l[i as int] == entry_of(listed[i - 1]));
                    assert(listed[i - 1].number == number);
                    lemma_block_key_round_trip(number);
                }
            }
            return false;
        }
        proof {
            lemma_block_key_canonical(l[i as int].0);
        }
        if i + 1 < n {
            if number == u64::MAX {
                proof {
                    if is_chain(g, l) {
                        let listed = blocks_listed(g, l);
                        assert(listed[i as int].number == g.first_block + i);
                    }
                }
                return false;
            }
            number = number + 1;
        }
        i += 1;
    }
    proof {
        let listed = blocks_listed(g, l);
        assert forall|k: int| 0 <= k < listed.len() implies (#[trigger] listed[k]).number
            == g.first_block + k by {
            assert(l[k + 1].0 == block_key((g.first_block + k) as u64));
        }
        assert(l =~= image(g, listed)) by {
            assert forall|k: int| 0 <= k < l.len() implies l[k] == image(g, listed)[k] by {
                if k > 0 {
                    assert(l[k].0 == block_key((g.first_block + k - 1) as u64));
                    assert(image(g, listed)[k] == entry_of(listed[k - 1]));
                }
            }
        }
    }
    true
}

impl BlockStore for DiskBlockEngine {
    open spec fn wf(&self) -> bool {
        &&& self.engine_wf()
        &&& is_chain(self.genesis_view(), self.contents())
    }

    closed spec fn genesis_view(&self) -> GenesisView {
        self.genesis@
    }

    open spec fn blocks(&self) -> Seq<BlockView> {
        blocks_listed(self.genesis_view(), self.contents())
    }

    proof fn lemma_gapless(&self) {
    }

    fn genesis(&self) -> (genesis: GenesisRecord) {
        self.genesis.clone()
    }

    fn last_block_number(&self) -> (last: Option<u64>) {
        let bound = encode_block_key(u64::MAX);
        proof {
            lemma_image_floor(self.genesis@, self.blocks());
        }
        match self.engine.floor(bound.as_slice()) {
            Some(entry) => decode_block_key(entry.key.as_slice()),
            None => None,
        }
    }

    fn get_block(&self, number: u64) -> (block: Option<Block>) {
        let key = encode_block_key(number);
        proof {
            lemma_image_values(self.genesis@, self.blocks(), number);
        }
        match self.engine.get(key.as_slice()) {
            Some(payload) => Some(Block { number, payload: copy_bytes(payload.as_slice()) }),
            None => None,
        }
    }

    fn store_next_block(&mut self, block: Block) -> (outcome: Result<(), StoreError>)
        ensures
            outcome is Ok <==> append_outcome(
                old(self).genesis_view(),
                old(self).blocks(),
                block@,
            ) is Ok,
            final(self).contents() == match outcome {
                Ok(_) => with_entry(old(self).contents(), block_key(block.number), block.payload@),
                Err(_) => old(self).contents(),
            },
    {
        let fits = match self.next_block_number() {
            Some(next) => next == block.number,
            None => false,
        };
        if !fits {
            return Err(StoreError::NonSequentialAppend);
        }
        proof {
            lemma_image_append(self.genesis@, self.blocks(), block@);
            lemma_image_listed(self.genesis@, self.blocks().push(block@));
        }
        let key = encode_block_key(block.number);
        self.engine.put(key, block.payload);
        Ok(())
    }
}

/// Reads the whole persisted sequence back through the contract of the
/// store: every block from the first to the last persisted one, in ascending
/// order.
pub fn dump<S: BlockStore>(store: &S) -> (blocks: Vec<Block>)
    requires
        store.wf(),
    ensures
        block_views(blocks@) == store.blocks(),
{
    let ghost g = store.genesis_view();
    let ghost held = store.blocks();
    proof {
        store.lemma_gapless();
    }
    let mut blocks: Vec<Block> = Vec::new();
    let last = match store.last_block_number() {
        Some(last) => last,
        None => {
            assert(block_views(blocks@) =~= held);
            return blocks;
        },
    };
    let genesis = store.genesis();
    let mut number: u64 = genesis.first_block;
    while number < last
        invariant
            store.wf(),
            g == store.genesis_view(),
            held == store.blocks(),
            consecutive(g.first_block, held),
            held.len() > 0,
            last == held.last().number,
            g.first_block <= number <= last,
            blocks@.len() == number - g.first_block,
            forall|k: int| 0 <= k < blocks@.len() ==> (#[trigger] blocks@[k])@ == held[k],
        decreases last - number,
    {
        match store.get_block(number) {
            Some(block) => {
                blocks.push(block);
            },
            None => {},
        }
        number = number + 1;
    }
    match store.get_block(last) {
        Some(block) => {
            blocks.push(block);
        },
        None => {},
    }
    assert(block_views(blocks@) =~= held);
    blocks
}

} // verus!
