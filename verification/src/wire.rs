//! The building blocks of the binary form of a record: numbers of fixed
//! width, most significant byte first, and byte strings behind their length.

use crate::bytes::{
    append_bytes, be64, be64_value, copy_range, lemma_be64_read_back, lemma_be64_value_bounds,
    push_be64, read_be64,
};
use vstd::prelude::*;

verus! {

/// The two bytes of `n`, most significant first.
pub open spec fn be16(n: u16) -> Seq<u8> {
    seq![(n / 256) as u8, (n % 256) as u8]
}

/// The number that two bytes spell, most significant first.
pub open spec fn be16_value(s: Seq<u8>) -> int
    recommends
        s.len() == 2,
{
    s[0] * 256 + s[1]
}

/// The sixteen bytes of `n`, most significant first.
pub open spec fn be128(n: u128) -> Seq<u8> {
    be64((n / 0x1_0000_0000_0000_0000) as u64) + be64((n % 0x1_0000_0000_0000_0000) as u64)
}

/// The number that sixteen bytes spell, most significant first.
pub open spec fn be128_value(s: Seq<u8>) -> int
    recommends
        s.len() == 16,
{
    (be64_value(s.subrange(0, 8)) * 0x1_0000_0000_0000_0000 + be64_value(s.subrange(8, 16))) as int
}

/// A byte string behind its length: the length in eight bytes, most
/// significant first, then the bytes.
pub open spec fn blob_bytes(b: Seq<u8>) -> Seq<u8> {
    be64(b.len() as u64) + b
}

/// The byte string at the front of `s` that stands behind its length, and
/// the number of bytes that it takes with the length. There is none where `s`
/// ends before the byte string does.
pub open spec fn parse_blob(s: Seq<u8>) -> Option<(Seq<u8>, int)> {
    if s.len() < 8 {
        None
    } else {
        let len = be64_value(s.subrange(0, 8)) as int;
        if s.len() < 8 + len {
            None
        } else {
            Some((s.subrange(8, 8 + len), 8 + len))
        }
    }
}

/// The number in eight bytes at the front of `s`, and the number of bytes
/// that it takes.
pub open spec fn parse_u64(s: Seq<u8>) -> Option<(u64, int)> {
    if s.len() < 8 {
        None
    } else {
        Some((be64_value(s.subrange(0, 8)) as u64, 8))
    }
}

/// Reading the eight bytes of a number gives the number back, whatever
/// follows them.
pub proof fn lemma_u64_read_back(n: u64, rest: Seq<u8>)
    ensures
        parse_u64(be64(n) + rest) == Some((n, 8int)),
        (be64(n) + rest).skip(8) == rest,
{
    lemma_be64_read_back(n);
    assert((be64(n) + rest).subrange(0, 8) =~= be64(n));
    assert((be64(n) + rest).skip(8) =~= rest);
}

/// Reading the two bytes of a number gives the number back.
pub proof fn lemma_be16_read_back(n: u16, rest: Seq<u8>)
    ensures
        be16(n).len() == 2,
        be16_value((be16(n) + rest).subrange(0, 2)) == n,
{
    assert((be16(n) + rest).subrange(0, 2) =~= be16(n));
}

/// Reading the sixteen bytes of a number gives the number back.
pub proof fn lemma_be128_read_back(n: u128, rest: Seq<u8>)
    ensures
        be128(n).len() == 16,
        be128_value((be128(n) + rest).subrange(0, 16)) == n,
{
    let high = (n / 0x1_0000_0000_0000_0000) as u64;
    let low = (n % 0x1_0000_0000_0000_0000) as u64;
    lemma_be64_read_back(high);
    lemma_be64_read_back(low);
    let s = (be128(n) + rest).subrange(0, 16);
    assert(s.subrange(0, 8) =~= be64(high));
    assert(s.subrange(8, 16) =~= be64(low));
}

/// Reading a byte string that was written behind its length gives the byte
/// string back, whatever follows it.
pub proof fn lemma_blob_read_back(b: Seq<u8>, rest: Seq<u8>)
    requires
        b.len() <= u64::MAX,
    ensures
        blob_bytes(b).len() == 8 + b.len(),
        parse_blob(blob_bytes(b) + rest) == Some((b, 8 + b.len() as int)),
        (blob_bytes(b) + rest).skip(8 + b.len() as int) == rest,
{
    let s = blob_bytes(b) + rest;
    lemma_be64_read_back(b.len() as u64);
    assert(s.subrange(0, 8) =~= be64(b.len() as u64));
    let end = 8 + b.len() as int;
    assert(s.subrange(8, end) =~= b);
    assert(s.skip(end) =~= rest);
}

/// Appends the two bytes of `n`, most significant first.
pub fn push_be16(out: &mut Vec<u8>, n: u16)
    ensures
        final(out)@ == old(out)@ + be16(n),
{
    out.push((n / 256) as u8);
    out.push((n % 256) as u8);
    assert(out@ =~= old(out)@ + be16(n));
}

/// Appends the sixteen bytes of `n`, most significant first.
pub fn push_be128(out: &mut Vec<u8>, n: u128)
    ensures
        final(out)@ == old(out)@ + be128(n),
{
    push_be64(out, (n / 0x1_0000_0000_0000_0000) as u64);
    push_be64(out, (n % 0x1_0000_0000_0000_0000) as u64);
    assert(out@ =~= old(out)@ + be128(n));
}

/// Appends `b` behind its length.
pub fn push_blob(out: &mut Vec<u8>, b: &[u8])
    ensures
        final(out)@ == old(out)@ + blob_bytes(b@),
{
    push_be64(out, b.len() as u64);
    append_bytes(out, b);
    assert(out@ =~= old(out)@ + blob_bytes(b@));
}

/// Reads the number that the eight bytes from `at` on spell, and the place
/// behind them.
pub fn take_be64(bytes: &[u8], at: usize) -> (read: Option<(u64, usize)>)
    ensures
        read is Some <==> at + 8 <= bytes@.len(),
        read is Some ==> (read->0).0 == be64_value(bytes@.skip(at as int).subrange(0, 8))
            && (read->0).1 == at + 8,
{
    proof {
        if at + 8 <= bytes@.len() {
            assert(bytes@.skip(at as int).subrange(0, 8) =~= bytes@.subrange(at as int, at + 8));
        }
    }
    if at > bytes.len() || bytes.len() - at < 8 {
        return None;
    }
    match read_be64(bytes, at) {
        Some(n) => Some((n, at + 8)),
        None => None,
    }
}

/// Reads the number that the two bytes from `at` on spell, and the place
/// behind them.
pub fn take_be16(bytes: &[u8], at: usize) -> (read: Option<(u16, usize)>)
    ensures
        read is Some <==> at + 2 <= bytes@.len(),
        read is Some ==> (read->0).0 == be16_value(bytes@.skip(at as int).subrange(0, 2))
            && (read->0).1 == at + 2,
{
    if at > bytes.len() || bytes.len() - at < 2 {
        return None;
    }
    let high: u16 = bytes[at] as u16;
    let low: u16 = bytes[at + 1] as u16;
    proof {
        let s = bytes@.skip(at as int).subrange(0, 2);
        assert(s[0] == bytes@[at as int] && s[1] == bytes@[at + 1]);
    }
    Some((high * 256 + low, at + 2))
}

/// Reads the number that the sixteen bytes from `at` on spell, and the place
/// behind them.
pub fn take_be128(bytes: &[u8], at: usize) -> (read: Option<(u128, usize)>)
    ensures
        read is Some <==> at + 16 <= bytes@.len(),
        read is Some ==> (read->0).0 == be128_value(bytes@.skip(at as int).subrange(0, 16))
            && (read->0).1 == at + 16,
{
    if at > bytes.len() || bytes.len() - at < 16 {
        return None;
    }
    let ghost s = bytes@.skip(at as int).subrange(0, 16);
    proof {
        assert(s.subrange(0, 8) =~= bytes@.subrange(at as int, at + 8));
        assert(s.subrange(8, 16) =~= bytes@.subrange(at + 8, at + 16));
        lemma_be64_value_bounds(s.subrange(0, 8));
        lemma_be64_value_bounds(s.subrange(8, 16));
    }
    match (read_be64(bytes, at), read_be64(bytes, at + 8)) {
        (Some(high), Some(low)) => {
            let n: u128 = (high as u128) * 0x1_0000_0000_0000_0000 + (low as u128);
            Some((n, at + 16))
        },
        _ => None,
    }
}

/// Reads the byte string that stands behind its length at `at`, and the
/// place behind it.
pub fn take_blob(bytes: &[u8], at: usize) -> (read: Option<(Vec<u8>, usize)>)
    ensures
        read is Some <==> at <= bytes@.len() && parse_blob(bytes@.skip(at as int)) is Some,
        read is Some ==> (read->0).0@ == (parse_blob(bytes@.skip(at as int))->0).0 && (read->0).1 == at
            + (parse_blob(bytes@.skip(at as int))->0).1 && (read->0).1 <= bytes@.len(),
{
    let ghost s = bytes@.skip(at as int);
    let (len, from) = match take_be64(bytes, at) {
        Some(read) => read,
        None => {
            return None;
        },
    };
    let room: usize = bytes.len() - from;
    if len > room as u64 {
        return None;
    }
    let end: usize = from + len as usize;
    let b = copy_range(bytes, from, end);
    assert(b@ =~= s.subrange(8, 8 + len));
    Some((b, end))
}

} // verus!
