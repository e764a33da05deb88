//! What holds of every store, whatever it was bound to and whatever was
//! appended: stated over the outcomes of opening, appending and reading, and
//! proved.

use crate::block::{block_key, lemma_block_key_round_trip, BlockView};
use crate::engine::Listing;
use crate::error::StoreError;
use crate::genesis::{genesis_bytes, law_genesis_round_trip, GenesisView};
use crate::journal::{
    fits_record, journal_of, law_journal_append, law_journal_recovers, law_torn_write_invisible,
    record_bytes, replayed, settled, settled_len,
};
use crate::store::{
    append_outcome, block_at, consecutive, entry_of, image, last_number, lemma_image_append,
    lemma_image_ascending, lemma_image_listed, lemma_image_values, next_number, open_outcome,
    opened_contents,
};
use vstd::prelude::*;

verus! {

/// What an engine holds after `rounds` rounds of a restart: each round opens
/// the store with genesis `g` on what the round before left, appends the next
/// of `blocks`, and closes. The first round starts on a fresh engine. The run
/// ends with the first refusal.
pub open spec fn restarted_run(g: GenesisView, blocks: Seq<BlockView>, rounds: nat) -> Result<
    Listing,
    StoreError,
>
    decreases rounds,
{
    if rounds == 0 {
        Ok(Seq::empty())
    } else {
        match restarted_run(g, blocks, (rounds - 1) as nat) {
            Err(error) => Err(error),
            Ok(left) => match open_outcome(g, left) {
                Err(error) => Err(error),
                Ok(held) => match append_outcome(g, held, blocks[rounds - 1]) {
                    Err(error) => Err(error),
                    Ok(after) => Ok(image(g, after)),
                },
            },
        }
    }
}

/// Reopening gives back what was persisted: an engine that a store bound to
/// `g` left with `blocks` in it opens again with `g`, holds exactly `blocks`,
/// and is not changed by the opening.
pub proof fn law_reopen(g: GenesisView, blocks: Seq<BlockView>)
    requires
        consecutive(g.first_block, blocks),
    ensures
        open_outcome(g, image(g, blocks)) == Ok::<Seq<BlockView>, StoreError>(blocks),
        opened_contents(g, image(g, blocks)) == image(g, blocks),
{
    lemma_image_listed(g, blocks);
    lemma_image_values(g, blocks, 0);
    law_genesis_round_trip(g);
}

/// Sequential durability: blocks with consecutive numbers from the first
/// block number on, appended one at a time with a restart of the store
/// before each append, are all accepted, and after any number of rounds the
/// store opens with exactly the blocks appended so far, in order and with
/// their payloads byte for byte.
pub proof fn law_sequential_durability(g: GenesisView, blocks: Seq<BlockView>, rounds: nat)
    requires
        consecutive(g.first_block, blocks),
        rounds <= blocks.len(),
    ensures
        restarted_run(g, blocks, rounds) is Ok,
        open_outcome(g, restarted_run(g, blocks, rounds)->Ok_0) == Ok::<
            Seq<BlockView>,
            StoreError,
        >(blocks.take(rounds as int)),
        rounds > 0 ==> restarted_run(g, blocks, rounds)->Ok_0 == image(
            g,
            blocks.take(rounds as int),
        ),
    decreases rounds,
{
    if rounds == 0 {
        assert(blocks.take(0) =~= Seq::<BlockView>::empty());
    } else {
        law_sequential_durability(g, blocks, (rounds - 1) as nat);
        let held = blocks.take(rounds - 1);
        let after = blocks.take(rounds as int);
        assert(held.push(blocks[rounds - 1]) =~= after);
        assert(consecutive(g.first_block, after));
        law_reopen(g, after);
    }
}

/// Genesis binding: an engine that holds the genesis `held` does not open
/// with any other genesis, whatever blocks it holds. The refusal is a genesis
/// mismatch.
pub proof fn law_genesis_binding(held: GenesisView, blocks: Seq<BlockView>, other: GenesisView)
    requires
        consecutive(held.first_block, blocks),
        other != held,
    ensures
        open_outcome(other, image(held, blocks)) == Err::<Seq<BlockView>, StoreError>(
            StoreError::GenesisMismatch,
        ),
{
    lemma_image_listed(held, blocks);
    lemma_image_values(held, blocks, 0);
    law_genesis_round_trip(held);
}

/// Append order: a store accepts the block with the next number and no
/// other. The next number of an empty store is the first block number of its
/// genesis; after an append it is the successor of the number appended. A
/// refusal is for a block out of sequence.
pub proof fn law_append_order(g: GenesisView, blocks: Seq<BlockView>, block: BlockView)
    requires
        consecutive(g.first_block, blocks),
    ensures
        blocks.len() == 0 ==> next_number(g, blocks) == Some(g.first_block),
        append_outcome(g, blocks, block) is Ok <==> next_number(g, blocks) == Some(block.number),
        append_outcome(g, blocks, block) is Err ==> append_outcome(g, blocks, block) == Err::<
            Seq<BlockView>,
            StoreError,
        >(StoreError::NonSequentialAppend),
        append_outcome(g, blocks, block) is Ok ==> {
            let after = append_outcome(g, blocks, block)->Ok_0;
            &&& consecutive(g.first_block, after)
            &&& last_number(g, after) == Some(block.number)
            &&& next_number(g, after) == if block.number < u64::MAX {
                Some((block.number + 1) as u64)
            } else {
                None
            }
        },
{
}

/// Read consistency: no number above the last persisted one, and none below
/// the first block number, has a block; every persisted number has the block
/// that was appended under it; and an append changes no block that was
/// persisted before.
pub proof fn law_read_consistency(
    g: GenesisView,
    blocks: Seq<BlockView>,
    block: BlockView,
    number: u64,
)
    requires
        consecutive(g.first_block, blocks),
    ensures
        number < g.first_block ==> block_at(g, blocks, number) is None,
        last_number(g, blocks) is None ==> block_at(g, blocks, number) is None,
        last_number(g, blocks) is Some && number > last_number(g, blocks)->0 ==> block_at(
            g,
            blocks,
            number,
        ) is None,
        forall|i: int|
            0 <= i < blocks.len() ==> block_at(g, blocks, (#[trigger] blocks[i]).number) == Some(
                blocks[i],
            ),
        append_outcome(g, blocks, block) is Ok ==> block_at(
            g,
            append_outcome(g, blocks, block)->Ok_0,
            number,
        ) == if number == block.number {
            Some(block)
        } else {
            block_at(g, blocks, number)
        },
{
}

/// No gap is ever seen: where a store has the block of a number, it has the
/// blocks of all numbers from the first block number up to it.
pub proof fn law_prefix_visible(g: GenesisView, blocks: Seq<BlockView>, number: u64, below: u64)
    requires
        consecutive(g.first_block, blocks),
        block_at(g, blocks, number) is Some,
        g.first_block <= below <= number,
    ensures
        block_at(g, blocks, below) is Some,
        block_at(g, blocks, below)->0.number == below,
{
}

/// The payloads of `blocks` are short enough for journal records.
pub open spec fn fits_blocks(g: GenesisView, blocks: Seq<BlockView>) -> bool {
    &&& genesis_bytes(g).len() <= u64::MAX
    &&& forall|i: int| 0 <= i < blocks.len() ==> (#[trigger] blocks[i]).payload.len() <= u64::MAX
}

/// Restart from the journal: the journal of a store recovers to exactly what
/// the store held, and the store opens on it with all its blocks.
pub proof fn law_restart_from_journal(g: GenesisView, blocks: Seq<BlockView>)
    requires
        consecutive(g.first_block, blocks),
        fits_blocks(g, blocks),
    ensures
        settled(journal_of(image(g, blocks))),
        replayed(journal_of(image(g, blocks))) == image(g, blocks),
        open_outcome(g, replayed(journal_of(image(g, blocks)))) == Ok::<
            Seq<BlockView>,
            StoreError,
        >(blocks),
{
    let l = image(g, blocks);
    lemma_image_ascending(g, blocks);
    assert forall|i: int| 0 <= i < l.len() implies fits_record((#[trigger] l[i]).0, l[i].1) by {
        if i > 0 {
            assert(l[i] == entry_of(blocks[i - 1]));
            lemma_block_key_round_trip(blocks[i - 1].number);
        }
    }
    law_journal_recovers(l);
    law_reopen(g, blocks);
}

/// A crash during an append loses that append and nothing else: where the
/// record of the next block was written whole, the store restarts with the
/// block; where the record was cut short, it restarts with the blocks that
/// it had, and the next record is written where the torn one began.
pub proof fn law_crash_during_append(
    g: GenesisView,
    blocks: Seq<BlockView>,
    block: BlockView,
    written: int,
)
    requires
        consecutive(g.first_block, blocks),
        fits_blocks(g, blocks),
        block.payload.len() <= u64::MAX,
        next_number(g, blocks) == Some(block.number),
        0 <= written <= record_bytes(block_key(block.number), block.payload).len(),
    ensures
        ({
            let journal = journal_of(image(g, blocks));
            let record = record_bytes(block_key(block.number), block.payload);
            if written == record.len() {
                &&& replayed(journal + record) == image(g, blocks.push(block))
                &&& settled(journal + record)
            } else {
                &&& replayed(journal + record.take(written)) == image(g, blocks)
                &&& settled_len(journal + record.take(written)) == journal.len()
            }
        }),
{
    let journal = journal_of(image(g, blocks));
    let key = block_key(block.number);
    let record = record_bytes(key, block.payload);
    law_restart_from_journal(g, blocks);
    lemma_block_key_round_trip(block.number);
    if written == record.len() {
        law_journal_append(Seq::empty(), journal, key, block.payload);
        lemma_image_append(g, blocks, block);
    } else {
        law_torn_write_invisible(Seq::empty(), journal, key, block.payload, written);
    }
}

} // verus!
