//! The journal of an engine: the bytes that make its entries durable. Every
//! put is one record at the end of the journal, and an engine is recovered by
//! replaying the records in order. A record that was cut short by a crash is
//! not replayed.

use crate::bytes::{
    append_bytes, be64, be64_value, copy_range, lemma_be64_read_back, push_be64, read_be64,
};
use crate::engine::{
    ascending, lemma_with_entry_ascending, lemma_with_entry_at_end, with_entry, KvEngine, Listing,
};
use vstd::prelude::*;

verus! {

/// The record of one put: the lengths of key and value, eight bytes each and
/// most significant first, then the key, then the value.
pub open spec fn record_bytes(key: Seq<u8>, value: Seq<u8>) -> Seq<u8> {
    be64(key.len() as u64) + be64(value.len() as u64) + key + value
}

/// The first record of a journal: its key, its value and its length in bytes.
/// There is none where the journal ends before the record does.
pub open spec fn first_record(journal: Seq<u8>) -> Option<(Seq<u8>, Seq<u8>, int)> {
    if journal.len() < 16 {
        None
    } else {
        let key_len = be64_value(journal.subrange(0, 8)) as int;
        let value_len = be64_value(journal.subrange(8, 16)) as int;
        if journal.len() < 16 + key_len + value_len {
            None
        } else {
            Some(
                (
                    journal.subrange(16, 16 + key_len),
                    journal.subrange(16 + key_len, 16 + key_len + value_len),
                    16 + key_len + value_len,
                ),
            )
        }
    }
}

/// What a listing becomes when the records of `journal` are replayed onto
/// it, each a put, up to the first record that is not whole.
pub open spec fn replayed_onto(l: Listing, journal: Seq<u8>) -> Listing
    decreases journal.len(),
{
    match first_record(journal) {
        None => l,
        Some((key, value, len)) => replayed_onto(with_entry(l, key, value), journal.skip(len)),
    }
}

/// What an engine holds that was recovered from `journal`.
pub open spec fn replayed(journal: Seq<u8>) -> Listing {
    replayed_onto(Seq::empty(), journal)
}

/// The length of the whole records at the front of `journal`: what a
/// recovery replays.
pub open spec fn settled_len(journal: Seq<u8>) -> nat
    decreases journal.len(),
{
    match first_record(journal) {
        None => 0,
        Some((key, value, len)) => (len + settled_len(journal.skip(len))) as nat,
    }
}

/// The journal is made of whole records, with nothing behind them.
pub open spec fn settled(journal: Seq<u8>) -> bool {
    settled_len(journal) == journal.len()
}

/// Key and value are short enough for their lengths to be written down.
pub open spec fn fits_record(key: Seq<u8>, value: Seq<u8>) -> bool {
    key.len() <= u64::MAX && value.len() <= u64::MAX
}

/// The journal that holds one record for each entry of `l`, in order.
pub open spec fn journal_of(l: Listing) -> Seq<u8>
    decreases l.len(),
{
    if l.len() == 0 {
        Seq::empty()
    } else {
        journal_of(l.drop_last()) + record_bytes(l.last().0, l.last().1)
    }
}

/// A journal that starts with the record of a put has that put as its first
/// record, whatever follows.
pub proof fn lemma_first_record(key: Seq<u8>, value: Seq<u8>, rest: Seq<u8>)
    requires
        fits_record(key, value),
    ensures
        first_record(record_bytes(key, value) + rest) == Some(
            (key, value, record_bytes(key, value).len() as int),
        ),
        record_bytes(key, value).len() == 16 + key.len() + value.len(),
        (record_bytes(key, value) + rest).skip(record_bytes(key, value).len() as int) == rest,
{
    let record = record_bytes(key, value);
    let journal = record + rest;
    lemma_be64_read_back(key.len() as u64);
    lemma_be64_read_back(value.len() as u64);
    assert(journal.subrange(0, 8) =~= be64(key.len() as u64));
    assert(journal.subrange(8, 16) =~= be64(value.len() as u64));
    let key_end = 16 + key.len() as int;
    let value_end = key_end + value.len() as int;
    assert(journal.subrange(16, key_end) =~= key);
    assert(journal.subrange(key_end, value_end) =~= value);
    assert(journal.skip(record.len() as int) =~= rest);
}

/// The first record of a journal stays its first record when the journal
/// grows.
pub proof fn lemma_first_record_stays(journal: Seq<u8>, more: Seq<u8>)
    requires
        first_record(journal) is Some,
    ensures
        first_record(journal + more) == first_record(journal),
        ({
            let (key, value, len) = first_record(journal)->0;
            (journal + more).skip(len) == journal.skip(len) + more
        }),
{
    let grown = journal + more;
    assert(grown.subrange(0, 8) =~= journal.subrange(0, 8));
    assert(grown.subrange(8, 16) =~= journal.subrange(8, 16));
    let key_len = be64_value(journal.subrange(0, 8)) as int;
    let value_len = be64_value(journal.subrange(8, 16)) as int;
    assert(grown.subrange(16, 16 + key_len) =~= journal.subrange(16, 16 + key_len));
    assert(grown.subrange(16 + key_len, 16 + key_len + value_len) =~= journal.subrange(
        16 + key_len,
        16 + key_len + value_len,
    ));
    let len = 16 + key_len + value_len;
    assert(grown.skip(len) =~= journal.skip(len) + more);
}

/// A record that was cut short is no record.
pub proof fn lemma_torn_record(key: Seq<u8>, value: Seq<u8>, written: int)
    requires
        fits_record(key, value),
        0 <= written < record_bytes(key, value).len(),
    ensures
        first_record(record_bytes(key, value).take(written)) is None,
{
    let record = record_bytes(key, value);
    let torn = record.take(written);
    lemma_first_record(key, value, Seq::empty());
    if written >= 16 {
        lemma_be64_read_back(key.len() as u64);
        lemma_be64_read_back(value.len() as u64);
        assert(torn.subrange(0, 8) =~= be64(key.len() as u64));
        assert(torn.subrange(8, 16) =~= be64(value.len() as u64));
    }
}

/// Durability of a put: replaying a settled journal with the record of a put
/// at its end gives what replaying the journal gives, with the entry put.
/// The longer journal is settled too.
pub proof fn law_journal_append(l: Listing, journal: Seq<u8>, key: Seq<u8>, value: Seq<u8>)
    requires
        settled(journal),
        fits_record(key, value),
    ensures
        replayed_onto(l, journal + record_bytes(key, value)) == with_entry(
            replayed_onto(l, journal),
            key,
            value,
        ),
        settled(journal + record_bytes(key, value)),
    decreases journal.len(),
{
    let record = record_bytes(key, value);
    lemma_first_record(key, value, Seq::empty());
    assert(record + Seq::<u8>::empty() =~= record);
    if journal.len() == 0 {
        assert(journal + record =~= record);
        assert(record.skip(record.len() as int) =~= Seq::<u8>::empty());
        assert(first_record(Seq::<u8>::empty()) is None);
        assert(replayed_onto(l, record) == replayed_onto(
            with_entry(l, key, value),
            Seq::<u8>::empty(),
        ));
        assert(settled_len(record) == record.len() + settled_len(Seq::<u8>::empty()));
    } else {
        assert(first_record(journal) is Some);
        let (first_key, first_value, len) = first_record(journal)->0;
        lemma_first_record_stays(journal, record);
        law_journal_append(with_entry(l, first_key, first_value), journal.skip(len), key, value);
    }
}

/// A write that was never acknowledged is not visible after a restart:
/// replaying a settled journal with a record cut short at its end gives what
/// replaying the journal gives, and the whole records end where the journal
/// ended.
pub proof fn law_torn_write_invisible(
    l: Listing,
    journal: Seq<u8>,
    key: Seq<u8>,
    value: Seq<u8>,
    written: int,
)
    requires
        settled(journal),
        fits_record(key, value),
        0 <= written < record_bytes(key, value).len(),
    ensures
        replayed_onto(l, journal + record_bytes(key, value).take(written)) == replayed_onto(
            l,
            journal,
        ),
        settled_len(journal + record_bytes(key, value).take(written)) == journal.len(),
    decreases journal.len(),
{
    let torn = record_bytes(key, value).take(written);
    lemma_torn_record(key, value, written);
    if journal.len() == 0 {
        assert(journal + torn =~= torn);
        assert(first_record(journal) is None);
    } else {
        assert(first_record(journal) is Some);
        let (first_key, first_value, len) = first_record(journal)->0;
        lemma_first_record_stays(journal, torn);
        law_torn_write_invisible(
            with_entry(l, first_key, first_value),
            journal.skip(len),
            key,
            value,
            written,
        );
    }
}

/// Every entry of `l` is short enough for a record.
pub open spec fn fits_journal(l: Listing) -> bool {
    forall|i: int| 0 <= i < l.len() ==> fits_record((#[trigger] l[i]).0, l[i].1)
}

/// Recovery gives the engine back: the journal of an engine is settled, and
/// replaying it gives exactly what the engine held.
pub proof fn law_journal_recovers(l: Listing)
    requires
        ascending(l),
        fits_journal(l),
    ensures
        settled(journal_of(l)),
        replayed(journal_of(l)) == l,
    decreases l.len(),
{
    if l.len() == 0 {
        assert(first_record(Seq::<u8>::empty()) is None);
    } else {
        let front = l.drop_last();
        let last = l.last();
        assert forall|i: int, j: int| 0 <= i < j < front.len() implies crate::bytes::lex_lt(
            (#[trigger] front[i]).0,
            (#[trigger] front[j]).0,
        ) by {
            assert(front[i] == l[i] && front[j] == l[j]);
        }
        assert forall|i: int| 0 <= i < front.len() implies fits_record(
            (#[trigger] front[i]).0,
            front[i].1,
        ) by {
            assert(front[i] == l[i]);
        }
        law_journal_recovers(front);
        law_journal_append(Seq::empty(), journal_of(front), last.0, last.1);
        assert forall|i: int| 0 <= i < front.len() implies crate::bytes::lex_lt(
            (#[trigger] front[i]).0,
            last.0,
        ) by {
            assert(front[i] == l[i]);
        }
        lemma_with_entry_at_end(front, last.0, last.1);
        assert(front.push(last) =~= l);
    }
}

/// Replaying keeps a listing in key order.
pub proof fn lemma_replayed_ascending(l: Listing, journal: Seq<u8>)
    requires
        ascending(l),
    ensures
        ascending(replayed_onto(l, journal)),
    decreases journal.len(),
{
    match first_record(journal) {
        None => {},
        Some((key, value, len)) => {
            lemma_with_entry_ascending(l, key, value);
            lemma_replayed_ascending(with_entry(l, key, value), journal.skip(len));
        },
    }
}

/// The record of a put of `value` under `key`.
pub fn encode_record(key: &[u8], value: &[u8]) -> (record: Vec<u8>)
    ensures
        record@ == record_bytes(key@, value@),
        fits_record(key@, value@),
{
    let mut record: Vec<u8> = Vec::new();
    push_be64(&mut record, key.len() as u64);
    push_be64(&mut record, value.len() as u64);
    append_bytes(&mut record, key);
    append_bytes(&mut record, value);
    assert(record@ =~= record_bytes(key@, value@));
    record
}

/// The journal of an engine: one record for each entry, in key order.
pub fn to_journal(engine: &KvEngine) -> (journal: Vec<u8>)
    ensures
        journal@ == journal_of(engine@),
        fits_journal(engine@),
        engine.wf() ==> settled(journal@) && replayed(journal@) == engine@,
{
    let ghost l = engine@;
    let mut journal: Vec<u8> = Vec::new();
    let n = engine.len();
    let mut i: usize = 0;
    while i < n
        invariant
            l == engine@,
            n == l.len(),
            i <= n,
            journal@ == journal_of(l.take(i as int)),
            forall|k: int| 0 <= k < i ==> fits_record((#[trigger] l[k]).0, l[k].1),
        decreases n - i,
    {
        match engine.nth(i) {
            Some(entry) => {
                let record = encode_record(entry.key.as_slice(), entry.value.as_slice());
                append_bytes(&mut journal, record.as_slice());
                proof {
                    let next = l.take(i + 1);
                    assert(next.drop_last() =~= l.take(i as int));
                    assert(next.last() == l[i as int]);
                }
            },
            None => {},
        }
        i += 1;
    }
    assert(l.take(n as int) =~= l);
    proof {
        if engine.wf() {
            law_journal_recovers(l);
        }
    }
    journal
}

/// Recovers an engine from its journal. The records are replayed in order,
/// up to the first that is not whole: what a crash cut short was never
/// acknowledged and is left out. The second result is the length of the
/// records replayed, behind which the next record is to be written.
pub fn replay(journal: &[u8]) -> (recovered: (KvEngine, usize))
    ensures
        recovered.0.wf(),
        recovered.0@ == replayed(journal@),
        recovered.1 == settled_len(journal@),
        recovered.1 <= journal@.len(),
{
    let mut engine = KvEngine::new();
    let mut at: usize = 0;
    assert(journal@.skip(0) =~= journal@);
    loop
        invariant
            engine.wf(),
            at <= journal@.len(),
            replayed_onto(engine@, journal@.skip(at as int)) == replayed(journal@),
            at + settled_len(journal@.skip(at as int)) == settled_len(journal@),
        ensures
            engine.wf(),
            at <= journal@.len(),
            engine@ == replayed(journal@),
            at == settled_len(journal@),
        decreases journal@.len() - at,
    {
        let ghost rest = journal@.skip(at as int);
        let left: usize = journal.len() - at;
        if left < 16 {
            break ;
        }
        let key_len = read_be64(journal, at);
        let value_len = read_be64(journal, at + 8);
        proof {
            assert(rest.subrange(0, 8) =~= journal@.subrange(at as int, at + 8));
            assert(rest.subrange(8, 16) =~= journal@.subrange(at + 8, at + 16));
        }
        let (key_len, value_len) = match (key_len, value_len) {
            (Some(key_len), Some(value_len)) => (key_len, value_len),
            _ => {
                break ;
            },
        };
        let room: u64 = (left - 16) as u64;
        if key_len > room || value_len > room - key_len {
            break ;
        }
        let key_from: usize = at + 16;
        let value_from: usize = key_from + key_len as usize;
        let end: usize = value_from + value_len as usize;
        let key = copy_range(journal, key_from, value_from);
        let value = copy_range(journal, value_from, end);
        proof {
            assert(key@ =~= rest.subrange(16, 16 + key_len));
            assert(value@ =~= rest.subrange(16 + key_len, 16 + key_len + value_len));
            assert(rest.skip(16 + key_len + value_len) =~= journal@.skip(end as int));
        }
        engine.put(key, value);
        at = end;
    }
    (engine, at)
}

} // verus!
