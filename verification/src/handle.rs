//! The life of a store handle: a directory is opened under its lock, and
//! closed again. What a directory holds between the two is its journal.

use crate::block::BlockView;
use crate::error::StoreError;
use crate::genesis::{GenesisRecord, GenesisView};
use crate::journal::{journal_of, replay, replayed, settled, settled_len, to_journal};
use crate::lock::LockRegistry;
use crate::store::{open_outcome, opened_contents, BlockStore, DiskBlockEngine};
use vstd::prelude::*;

verus! {

/// What opening directory `dir` with genesis `g` comes to, while the
/// directories in `held` are held and the directory holds `journal`: the
/// blocks of the opened store, or the reason why it does not open. A held
/// directory is refused before anything is read.
pub open spec fn open_dir_outcome(
    held: Set<Seq<u8>>,
    dir: Seq<u8>,
    g: GenesisView,
    journal: Seq<u8>,
) -> Result<Seq<BlockView>, StoreError> {
    if held.contains(dir) {
        Err(StoreError::LockContention)
    } else {
        open_outcome(g, replayed(journal))
    }
}

/// Opens the store of directory `dir`, bound to `genesis`, on what the
/// directory holds.
///
/// The handle takes the lock of the directory first and fails with
/// `LockContention` where a live handle holds it. It then recovers the engine
/// from the journal and opens the store on it. Where the store does not open
/// (another genesis, data that does not decode) the lock is given back. A
/// failed open changes nothing.
///
/// With the store comes the length of the whole records of the journal: a
/// record that a crash cut short lies behind it, and the next record is to be
/// written in its place.
pub fn open_dir(
    registry: &mut LockRegistry,
    dir: &[u8],
    genesis: GenesisRecord,
    journal: &[u8],
) -> (outcome: Result<(DiskBlockEngine, usize), StoreError>)
    requires
        old(registry).wf(),
    ensures
        final(registry).wf(),
        match outcome {
            Ok((store, settled)) => {
                &&& store.wf()
                &&& store.genesis_view() == genesis@
                &&& open_dir_outcome(old(registry)@, dir@, genesis@, journal@) == Ok::<
                    Seq<BlockView>,
                    StoreError,
                >(store.blocks())
                &&& store.contents() == opened_contents(genesis@, replayed(journal@))
                &&& settled == settled_len(journal@)
                &&& final(registry)@ == old(registry)@.insert(dir@)
            },
            Err(error) => {
                &&& open_dir_outcome(old(registry)@, dir@, genesis@, journal@) == Err::<
                    Seq<BlockView>,
                    StoreError,
                >(error)
                &&& final(registry)@ == old(registry)@
            },
        },
{
    match registry.acquire(dir) {
        Err(error) => {
            return Err(error);
        },
        Ok(_) => {},
    }
    let (engine, settled) = replay(journal);
    match DiskBlockEngine::open(genesis, engine) {
        Ok(store) => Ok((store, settled)),
        Err(failure) => {
            registry.release(dir);
            assert(registry@ =~= old(registry)@);
            Err(failure.error)
        },
    }
}

/// Closes the handle on directory `dir`: gives the lock back and hands out
/// the journal of all that the store holds. The journal is made of whole
/// records, and a later open recovers from it exactly what the store held.
pub fn close_dir(registry: &mut LockRegistry, dir: &[u8], store: DiskBlockEngine) -> (journal: Vec<
    u8,
>)
    requires
        old(registry).wf(),
        store.wf(),
    ensures
        final(registry).wf(),
        final(registry)@ == old(registry)@.remove(dir@),
        journal@ == journal_of(store.contents()),
        settled(journal@),
        replayed(journal@) == store.contents(),
{
    registry.release(dir);
    let engine = store.close();
    to_journal(&engine)
}

/// One handle for each directory: while a handle holds a directory, no
/// other handle opens on it, whatever genesis it brings and whatever the
/// directory holds. The attempt fails with `LockContention`. A directory
/// that no handle holds opens as its journal says.
pub proof fn law_one_handle_per_directory(
    held: Set<Seq<u8>>,
    dir: Seq<u8>,
    g: GenesisView,
    journal: Seq<u8>,
)
    ensures
        open_dir_outcome(held.insert(dir), dir, g, journal) == Err::<Seq<BlockView>, StoreError>(
            StoreError::LockContention,
        ),
        open_dir_outcome(held.remove(dir), dir, g, journal) == open_outcome(g, replayed(journal)),
{
}

} // verus!
