//! An ordered key-value engine: entries with distinct keys, held in the
//! lexicographic order of their keys.

use crate::bytes::{
    copy_bytes, key_order, lemma_key_order, lemma_lex_irreflexive, lemma_lex_total,
    lemma_lex_transitive, lex_lt, same_bytes, KeyOrder,
};
use vstd::prelude::*;

verus! {

/// One key with its value.
#[derive(Debug, PartialEq, Eq)]
pub struct Entry {
    pub key: Vec<u8>,
    pub value: Vec<u8>,
}

impl View for Entry {
    type V = (Seq<u8>, Seq<u8>);

    open spec fn view(&self) -> (Seq<u8>, Seq<u8>) {
        (self.key@, self.value@)
    }
}

impl Clone for Entry {
    fn clone(&self) -> (copy: Self)
        ensures
            copy@ == self@,
    {
        Entry { key: copy_bytes(self.key.as_slice()), value: copy_bytes(self.value.as_slice()) }
    }
}

/// What an engine holds: its entries, as pairs of key and value, in the order
/// of a scan.
pub type Listing = Seq<(Seq<u8>, Seq<u8>)>;

/// The views of a run of entries.
pub open spec fn listing_of(entries: Seq<Entry>) -> Listing {
    Seq::new(entries.len(), |i: int| entries[i]@)
}

/// The keys rise strictly from each entry to the next, so no key occurs twice.
pub open spec fn ascending(l: Listing) -> bool {
    forall|i: int, j: int| 0 <= i < j < l.len() ==> lex_lt((#[trigger] l[i]).0, (#[trigger] l[j]).0)
}

/// Where `key` stands in `l`: behind how many entries. In an ascending
/// listing these are the entries whose keys come before `key`.
pub open spec fn rank(l: Listing, key: Seq<u8>) -> nat
    decreases l.len(),
{
    if l.len() == 0 {
        0
    } else if lex_lt(l.last().0, key) {
        l.len()
    } else {
        rank(l.drop_last(), key)
    }
}

/// Whether `l` has an entry under `key`.
pub open spec fn holds(l: Listing, key: Seq<u8>) -> bool {
    rank(l, key) < l.len() && l[rank(l, key) as int].0 == key
}

/// The value that `l` has under `key`, if any.
pub open spec fn value_at(l: Listing, key: Seq<u8>) -> Option<Seq<u8>> {
    if holds(l, key) {
        Some(l[rank(l, key) as int].1)
    } else {
        None
    }
}

/// `l` after `value` was put under `key`: in place of the entry under that
/// key where there is one, else as a new entry at the key's place.
pub open spec fn with_entry(l: Listing, key: Seq<u8>, value: Seq<u8>) -> Listing {
    if holds(l, key) {
        l.update(rank(l, key) as int, (key, value))
    } else {
        l.insert(rank(l, key) as int, (key, value))
    }
}

/// The entry of `l` with the greatest key that does not come after `bound`,
/// if there is one.
pub open spec fn floor_of(l: Listing, bound: Seq<u8>) -> Option<(Seq<u8>, Seq<u8>)> {
    if holds(l, bound) {
        Some(l[rank(l, bound) as int])
    } else if rank(l, bound) > 0 {
        Some(l[rank(l, bound) - 1])
    } else {
        None
    }
}

/// In an ascending listing the rank of a key parts the entries with a key
/// before it from the others.
pub proof fn lemma_rank_parts(l: Listing, key: Seq<u8>)
    requires
        ascending(l),
    ensures
        rank(l, key) <= l.len(),
        forall|i: int| 0 <= i < rank(l, key) ==> lex_lt((#[trigger] l[i]).0, key),
        forall|i: int| rank(l, key) <= i < l.len() ==> !lex_lt((#[trigger] l[i]).0, key),
    decreases l.len(),
{
    if l.len() == 0 {
    } else if lex_lt(l.last().0, key) {
        assert forall|i: int| 0 <= i < l.len() implies lex_lt((#[trigger] l[i]).0, key) by {
            if i < l.len() - 1 {
                lemma_lex_transitive(l[i].0, l.last().0, key);
            }
        }
    } else {
        let front = l.drop_last();
        assert forall|i: int, j: int| 0 <= i < j < front.len() implies lex_lt(
            (#[trigger] front[i]).0,
            (#[trigger] front[j]).0,
        ) by {
            assert(front[i] == l[i] && front[j] == l[j]);
        }
        lemma_rank_parts(front, key);
        assert forall|i: int| 0 <= i < rank(l, key) implies lex_lt((#[trigger] l[i]).0, key) by {
            assert(front[i] == l[i]);
        }
        assert forall|i: int| rank(l, key) <= i < l.len() implies !lex_lt(
            (#[trigger] l[i]).0,
            key,
        ) by {
            if i < l.len() - 1 {
                assert(front[i] == l[i]);
            }
        }
    }
}

/// The one place that parts an ascending listing as the rank of `key` does is
/// that rank.
pub proof fn lemma_rank_found(l: Listing, key: Seq<u8>, p: int)
    requires
        ascending(l),
        0 <= p <= l.len(),
        forall|i: int| 0 <= i < p ==> lex_lt((#[trigger] l[i]).0, key),
        forall|i: int| p <= i < l.len() ==> !lex_lt((#[trigger] l[i]).0, key),
    ensures
        rank(l, key) == p,
{
    lemma_rank_parts(l, key);
    let r = rank(l, key) as int;
    if r < p {
        assert(lex_lt(l[r].0, key));
    } else if p < r {
        assert(lex_lt(l[p].0, key));
    }
}

/// An ascending listing holds a key exactly if one of its entries has it, and
/// then at the key's rank and nowhere else.
pub proof fn lemma_holds(l: Listing, key: Seq<u8>)
    requires
        ascending(l),
    ensures
        holds(l, key) <==> exists|i: int| 0 <= i < l.len() && (#[trigger] l[i]).0 == key,
        forall|i: int| 0 <= i < l.len() && (#[trigger] l[i]).0 == key ==> i == rank(l, key),
{
    lemma_rank_parts(l, key);
    lemma_lex_irreflexive(key);
    let r = rank(l, key) as int;
    assert forall|i: int| 0 <= i < l.len() && (#[trigger] l[i]).0 == key implies i == r by {
        if i < r {
            assert(lex_lt(l[i].0, key));
        } else if i > r {
            assert(lex_lt(l[r].0, l[i].0));
            assert(!lex_lt(l[r].0, key));
        }
    }
    if holds(l, key) {
        assert(l[r].0 == key);
    }
}

/// The entries of an ascending listing from the rank of `key` on, but for one
/// under `key` itself, have keys that come after `key`.
pub proof fn lemma_rank_after(l: Listing, key: Seq<u8>, i: int)
    requires
        ascending(l),
        rank(l, key) <= i < l.len(),
        l[i].0 != key,
    ensures
        lex_lt(key, l[i].0),
{
    lemma_rank_parts(l, key);
    lemma_lex_total(l[i].0, key);
}

/// Putting an entry keeps the listing ascending.
pub proof fn lemma_with_entry_ascending(l: Listing, key: Seq<u8>, value: Seq<u8>)
    requires
        ascending(l),
    ensures
        ascending(with_entry(l, key, value)),
{
    lemma_rank_parts(l, key);
    let p = rank(l, key) as int;
    let after = with_entry(l, key, value);
    if holds(l, key) {
        assert forall|i: int, j: int| 0 <= i < j < after.len() implies lex_lt(
            (#[trigger] after[i]).0,
            (#[trigger] after[j]).0,
        ) by {
            assert(after[i].0 == l[i].0 && after[j].0 == l[j].0);
        }
    } else {
        assert forall|i: int, j: int| 0 <= i < j < after.len() implies lex_lt(
            (#[trigger] after[i]).0,
            (#[trigger] after[j]).0,
        ) by {
            if j < p {
                assert(after[i] == l[i] && after[j] == l[j]);
            } else if j == p {
                assert(after[i] == l[i]);
            } else if i < p {
                assert(after[i] == l[i] && after[j] == l[j - 1]);
                if l[j - 1].0 == key {
                    lemma_holds(l, key);
                }
                lemma_rank_after(l, key, j - 1);
                lemma_lex_transitive(l[i].0, key, l[j - 1].0);
            } else if i == p {
                assert(after[j] == l[j - 1]);
                if l[j - 1].0 == key {
                    lemma_holds(l, key);
                }
                lemma_rank_after(l, key, j - 1);
            } else {
                assert(after[i] == l[i - 1] && after[j] == l[j - 1]);
            }
        }
    }
}

/// After a put the listing has the new value under the key that was put, and
/// under every other key what it had before.
pub proof fn law_put_then_get(l: Listing, key: Seq<u8>, value: Seq<u8>, other: Seq<u8>)
    requires
        ascending(l),
    ensures
        value_at(with_entry(l, key, value), other) == if other == key {
            Some(value)
        } else {
            value_at(l, other)
        },
{
    let after = with_entry(l, key, value);
    let p = rank(l, key) as int;
    lemma_with_entry_ascending(l, key, value);
    lemma_rank_parts(l, key);
    lemma_holds(l, key);
    lemma_holds(l, other);
    lemma_holds(after, other);
    lemma_rank_parts(l, other);
    lemma_rank_parts(after, other);
    assert(after[p] == (key, value));
    if other == key {
    } else if holds(l, key) {
        assert(after.len() == l.len());
        assert forall|i: int| 0 <= i < l.len() implies (#[trigger] after[i]).0 == l[i].0 by {}
        if holds(l, other) {
            let r = rank(l, other) as int;
            assert(after[r].0 == other);
        }
        if holds(after, other) {
            let r = rank(after, other) as int;
            assert(l[r].0 == other);
        }
    } else {
        if holds(l, other) {
            let r = rank(l, other) as int;
            if r < p {
                assert(after[r] == l[r]);
            } else {
                assert(after[r + 1] == l[r]);
            }
        }
        if holds(after, other) {
            let r = rank(after, other) as int;
            if r < p {
                assert(after[r] == l[r]);
            } else {
                assert(after[r] == l[r - 1]);
            }
        }
    }
}

/// A key that comes after every key of the listing is put at its end.
pub proof fn lemma_with_entry_at_end(l: Listing, key: Seq<u8>, value: Seq<u8>)
    requires
        forall|i: int| 0 <= i < l.len() ==> lex_lt((#[trigger] l[i]).0, key),
    ensures
        rank(l, key) == l.len(),
        !holds(l, key),
        with_entry(l, key, value) == l.push((key, value)),
{
    if l.len() > 0 {
        assert(lex_lt(l[l.len() - 1].0, key));
    }
    assert(l.insert(l.len() as int, (key, value)) =~= l.push((key, value)));
}

/// An ordered key-value engine. It holds at most one value under each key and
/// hands its entries out in the lexicographic order of their keys.
pub struct KvEngine {
    entries: Vec<Entry>,
}

impl View for KvEngine {
    type V = Listing;

    closed spec fn view(&self) -> Listing {
        listing_of(self.entries@)
    }
}

impl KvEngine {
    /// The engine is in order: its keys rise strictly. Every engine is made so
    /// and every operation keeps it so.
    pub open spec fn wf(&self) -> bool {
        ascending(self@)
    }

    /// An engine that holds nothing.
    pub fn new() -> (engine: KvEngine)
        ensures
            engine.wf(),
            engine@ == Seq::<(Seq<u8>, Seq<u8>)>::empty(),
    {
        let engine = KvEngine { entries: Vec::new() };
        assert(engine@ =~= Seq::<(Seq<u8>, Seq<u8>)>::empty());
        engine
    }

    /// The number of entries.
    pub fn len(&self) -> (len: usize)
        ensures
            len == self@.len(),
    {
        self.entries.len()
    }

    /// The entry at place `i` of a scan in key order, if the engine has so
    /// many.
    pub fn nth(&self, i: usize) -> (entry: Option<&Entry>)
        ensures
            entry is Some <==> i < self@.len(),
            entry is Some ==> entry->0@ == self@[i as int],
    {
        if i < self.entries.len() {
            Some(&self.entries[i])
        } else {
            None
        }
    }

    /// The place of `key` in a scan: the number of entries whose keys come
    /// before it.
    pub fn seek(&self, key: &[u8]) -> (place: usize)
        requires
            self.wf(),
        ensures
            place == rank(self@, key@),
            place <= self@.len(),
    {
        let ghost l = self@;
        let mut lo: usize = 0;
        let mut hi: usize = self.entries.len();
        while lo < hi
            invariant
                l == listing_of(self.entries@),
                ascending(l),
                0 <= lo <= hi <= l.len(),
                forall|i: int| 0 <= i < lo ==> lex_lt((#[trigger] l[i]).0, key@),
                forall|i: int| hi <= i < l.len() ==> !lex_lt((#[trigger] l[i]).0, key@),
            decreases hi - lo,
        {
            let mid: usize = lo + (hi - lo) / 2;
            let order = key_order(self.entries[mid].key.as_slice(), key);
            proof {
                lemma_key_order(l[mid as int].0, key@);
            }
            if order == KeyOrder::Before {
                proof {
                    assert forall|i: int| 0 <= i < mid + 1 implies lex_lt(
                        (#[trigger] l[i]).0,
                        key@,
                    ) by {
                        if i < mid {
                            lemma_lex_transitive(l[i].0, l[mid as int].0, key@);
                        }
                    }
                }
                lo = mid + 1;
            } else {
                proof {
                    assert forall|i: int| mid <= i < l.len() implies !lex_lt(
                        (#[trigger] l[i]).0,
                        key@,
                    ) by {
                        if i > mid && lex_lt(l[i].0, key@) {
                            lemma_lex_transitive(l[mid as int].0, l[i].0, key@);
                        }
                    }
                }
                hi = mid;
            }
        }
        proof {
            lemma_rank_found(l, key@, lo as int);
        }
        lo
    }

    /// The value under `key`, if the engine has one.
    pub fn get(&self, key: &[u8]) -> (value: Option<&Vec<u8>>)
        requires
            self.wf(),
        ensures
            value is Some <==> value_at(self@, key@) is Some,
            value is Some ==> value->0@ == value_at(self@, key@)->0,
    {
        let place = self.seek(key);
        if place < self.entries.len() && same_bytes(self.entries[place].key.as_slice(), key) {
            Some(&self.entries[place].value)
        } else {
            None
        }
    }

    /// The entry with the greatest key that does not come after `bound`, if
    /// there is one.
    pub fn floor(&self, bound: &[u8]) -> (entry: Option<&Entry>)
        requires
            self.wf(),
        ensures
            entry is Some <==> floor_of(self@, bound@) is Some,
            entry is Some ==> entry->0@ == floor_of(self@, bound@)->0,
    {
        let place = self.seek(bound);
        if place < self.entries.len() && same_bytes(self.entries[place].key.as_slice(), bound) {
            Some(&self.entries[place])
        } else if place > 0 {
            Some(&self.entries[place - 1])
        } else {
            None
        }
    }

    /// Puts `value` under `key`: in place of the value that the key had, or as
    /// a new entry at the key's place in the order.
    pub fn put(&mut self, key: Vec<u8>, value: Vec<u8>)
        requires
            old(self).wf(),
        ensures
            final(self).wf(),
            final(self)@ == with_entry(old(self)@, key@, value@),
    {
        let place = self.seek(key.as_slice());
        proof {
            lemma_with_entry_ascending(self@, key@, value@);
        }
        let ghost before = self.entries@;
        if place < self.entries.len() && same_bytes(
            self.entries[place].key.as_slice(),
            key.as_slice(),
        ) {
            let ghost entry = (key@, value@);
            assert(listing_of(before.update(place as int, Entry { key, value }))
                =~= listing_of(before).update(place as int, entry));
            self.entries.set(place, Entry { key, value });
        } else {
            let ghost entry = (key@, value@);
            assert(listing_of(before.insert(place as int, Entry { key, value }))
                =~= listing_of(before).insert(place as int, entry));
            self.entries.insert(place, Entry { key, value });
        }
    }
}

} // verus!
