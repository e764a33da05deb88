//! The genesis record: the identity of one chain instance.

use crate::bytes::{
    append_bytes, be64, be64_value, copy_bytes, lemma_be64_read_back, lemma_be64_write_back,
    push_be64, read_be64, same_bytes,
};
use vstd::prelude::*;

verus! {

/// The identity of a chain instance. It is made once, handed to the store at
/// every open, and persisted beside the blocks as one fixed record.
#[derive(Debug, PartialEq, Eq)]
pub struct GenesisRecord {
    /// The fork that this chain instance belongs to.
    pub fork: u64,
    /// The number of the first block of the chain.
    pub first_block: u64,
    /// The commitment to the initial state.
    pub root: Vec<u8>,
}

/// What a genesis record holds, as mathematical values.
pub ghost struct GenesisView {
    pub fork: u64,
    pub first_block: u64,
    pub root: Seq<u8>,
}

impl View for GenesisRecord {
    type V = GenesisView;

    open spec fn view(&self) -> GenesisView {
        GenesisView { fork: self.fork, first_block: self.first_block, root: self.root@ }
    }
}

/// The persisted form of a genesis record: fork and first block number, eight
/// bytes each and most significant byte first, then the root commitment.
pub open spec fn genesis_bytes(g: GenesisView) -> Seq<u8> {
    be64(g.fork) + be64(g.first_block) + g.root
}

/// The genesis record that `bytes` is the persisted form of, if any.
pub open spec fn parse_genesis(bytes: Seq<u8>) -> Option<GenesisView> {
    if bytes.len() < 16 {
        None
    } else {
        Some(
            GenesisView {
                fork: be64_value(bytes.subrange(0, 8)) as u64,
                first_block: be64_value(bytes.subrange(8, 16)) as u64,
                root: bytes.subrange(16, bytes.len() as int),
            },
        )
    }
}

/// Decoding the persisted form of a genesis record gives the record back.
pub proof fn law_genesis_round_trip(g: GenesisView)
    ensures
        parse_genesis(genesis_bytes(g)) == Some(g),
{
    let bytes = genesis_bytes(g);
    lemma_be64_read_back(g.fork);
    lemma_be64_read_back(g.first_block);
    assert(bytes.subrange(0, 8) =~= be64(g.fork));
    assert(bytes.subrange(8, 16) =~= be64(g.first_block));
    assert(bytes.subrange(16, bytes.len() as int) =~= g.root);
}

/// A genesis record has one persisted form only: encoding what was decoded
/// gives the bytes back, so two records are equal exactly if their persisted
/// forms are.
pub proof fn law_genesis_canonical(bytes: Seq<u8>)
    requires
        parse_genesis(bytes) is Some,
    ensures
        genesis_bytes(parse_genesis(bytes)->0) == bytes,
{
    lemma_be64_write_back(bytes.subrange(0, 8));
    lemma_be64_write_back(bytes.subrange(8, 16));
    assert(genesis_bytes(parse_genesis(bytes)->0) =~= bytes);
}

impl Clone for GenesisRecord {
    fn clone(&self) -> (copy: Self)
        ensures
            copy@ == self@,
    {
        GenesisRecord {
            fork: self.fork,
            first_block: self.first_block,
            root: copy_bytes(self.root.as_slice()),
        }
    }
}

impl GenesisRecord {
    /// A genesis record of the given fork, first block number and root
    /// commitment.
    pub fn new(fork: u64, first_block: u64, root: Vec<u8>) -> (genesis: GenesisRecord)
        ensures
            genesis@ == (GenesisView { fork, first_block, root: root@ }),
    {
        GenesisRecord { fork, first_block, root }
    }

    /// Whether two genesis records are equal: all their fields are.
    pub fn same(&self, other: &GenesisRecord) -> (same: bool)
        ensures
            same == (self@ == other@),
    {
        self.fork == other.fork && self.first_block == other.first_block && same_bytes(
            self.root.as_slice(),
            other.root.as_slice(),
        )
    }

    /// The persisted form of this record. Decoding it gives the record back.
    pub fn encode(&self) -> (bytes: Vec<u8>)
        ensures
            bytes@ == genesis_bytes(self@),
            parse_genesis(bytes@) == Some(self@),
    {
        proof {
            law_genesis_round_trip(self@);
        }
        let mut bytes: Vec<u8> = Vec::new();
        push_be64(&mut bytes, self.fork);
        push_be64(&mut bytes, self.first_block);
        append_bytes(&mut bytes, self.root.as_slice());
        assert(bytes@ =~= genesis_bytes(self@));
        bytes
    }

    /// Reads a record back from its persisted form. Fewer than sixteen bytes
    /// are no record.
    pub fn decode(bytes: &[u8]) -> (genesis: Option<GenesisRecord>)
        ensures
            genesis is Some <==> parse_genesis(bytes@) is Some,
            genesis is Some ==> genesis->0@ == parse_genesis(bytes@)->0,
    {
        let fork = match read_be64(bytes, 0) {
            Some(n) => n,
            None => {
                return None;
            },
        };
        let first_block = match read_be64(bytes, 8) {
            Some(n) => n,
            None => {
                return None;
            },
        };
        let mut root: Vec<u8> = Vec::new();
        let mut i: usize = 16;
        while i < bytes.len()
            invariant
                16 <= i <= bytes@.len(),
                root@ == bytes@.subrange(16, i as int),
            decreases bytes.len() - i,
        {
            root.push(bytes[i]);
            assert(root@ =~= bytes@.subrange(16, i + 1));
            i += 1;
        }
        Some(GenesisRecord { fork, first_block, root })
    }
}

} // verus!
