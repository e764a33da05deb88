//! Byte strings: the fixed-width big-endian form of a number, and the
//! lexicographic order that an ordered key-value engine keeps its keys in.

use vstd::prelude::*;

verus! {

/// The eight bytes of `n`, most significant first.
#[verifier::opaque]
pub open spec fn be64(n: u64) -> Seq<u8> {
    let q1 = n / 256;
    let q2 = q1 / 256;
    let q3 = q2 / 256;
    let q4 = q3 / 256;
    let q5 = q4 / 256;
    let q6 = q5 / 256;
    let q7 = q6 / 256;
    seq![
        q7 as u8,
        (q6 % 256) as u8,
        (q5 % 256) as u8,
        (q4 % 256) as u8,
        (q3 % 256) as u8,
        (q2 % 256) as u8,
        (q1 % 256) as u8,
        (n % 256) as u8,
    ]
}

/// The number that eight bytes spell, most significant first.
#[verifier::opaque]
pub open spec fn be64_value(s: Seq<u8>) -> nat
    recommends
        s.len() == 8,
{
    (((((((s[0] * 256 + s[1]) * 256 + s[2]) * 256 + s[3]) * 256 + s[4]) * 256 + s[5]) * 256
        + s[6]) * 256 + s[7]) as nat
}

/// `a` and `b` agree on their first `k` bytes.
pub open spec fn common_prefix(a: Seq<u8>, b: Seq<u8>, k: int) -> bool {
    &&& 0 <= k <= a.len()
    &&& k <= b.len()
    &&& forall|j: int| 0 <= j < k ==> a[j] == b[j]
}

/// `a` comes strictly before `b` in lexicographic order: at the first place
/// where they differ `a` has the smaller byte, or `a` ends there and `b` goes on.
pub open spec fn lex_lt(a: Seq<u8>, b: Seq<u8>) -> bool {
    exists|k: int| #[trigger] common_prefix(a, b, k) && k < b.len() && (k == a.len() || a[k] < b[k])
}

/// `a` comes before `b` or is `b`.
pub open spec fn lex_le(a: Seq<u8>, b: Seq<u8>) -> bool {
    lex_lt(a, b) || a == b
}

/// How one byte string stands to another in lexicographic order.
#[derive(Clone, Copy, Debug, PartialEq, Eq, Structural)]
pub enum KeyOrder {
    Before,
    Same,
    After,
}

/// The place of `a` relative to `b`.
pub open spec fn key_order_of(a: Seq<u8>, b: Seq<u8>) -> KeyOrder {
    if lex_lt(a, b) {
        KeyOrder::Before
    } else if a == b {
        KeyOrder::Same
    } else {
        KeyOrder::After
    }
}

/// No byte string comes before itself.
pub proof fn lemma_lex_irreflexive(a: Seq<u8>)
    ensures
        !lex_lt(a, a),
{
}

/// Of two byte strings at most one comes before the other.
pub proof fn lemma_lex_asymmetric(a: Seq<u8>, b: Seq<u8>)
    ensures
        !(lex_lt(a, b) && lex_lt(b, a)),
{
    if lex_lt(a, b) && lex_lt(b, a) {
        let k1 = choose|k: int| #[trigger]
            common_prefix(a, b, k) && k < b.len() && (k == a.len() || a[k] < b[k]);
        let k2 = choose|k: int| #[trigger]
            common_prefix(b, a, k) && k < a.len() && (k == b.len() || b[k] < a[k]);
        if k1 < k2 {
            assert(b[k1] == a[k1]);
        } else if k2 < k1 {
            assert(a[k2] == b[k2]);
        }
    }
}

/// Lexicographic order is transitive.
pub proof fn lemma_lex_transitive(a: Seq<u8>, b: Seq<u8>, c: Seq<u8>)
    requires
        lex_lt(a, b),
        lex_lt(b, c),
    ensures
        lex_lt(a, c),
{
    let k1 = choose|k: int| #[trigger]
        common_prefix(a, b, k) && k < b.len() && (k == a.len() || a[k] < b[k]);
    let k2 = choose|k: int| #[trigger]
        common_prefix(b, c, k) && k < c.len() && (k == b.len() || b[k] < c[k]);
    let k = if k1 <= k2 {
        k1
    } else {
        k2
    };
    assert(common_prefix(a, c, k));
    if k2 < k1 {
        assert(a[k2] == b[k2]);
    } else if k1 < k2 {
        assert(b[k1] == c[k1]);
    }
}

/// Any two byte strings are equal or one comes before the other.
pub proof fn lemma_lex_total(a: Seq<u8>, b: Seq<u8>)
    ensures
        lex_lt(a, b) || a == b || lex_lt(b, a),
    decreases a.len(),
{
    if a.len() == 0 {
        if b.len() == 0 {
            assert(a =~= b);
        } else {
            assert(common_prefix(a, b, 0));
        }
    } else if b.len() == 0 {
        assert(common_prefix(b, a, 0));
    } else {
        lemma_first_difference(a, b, 0);
    }
}

/// Two byte strings that agree on their first `k` bytes are equal or ordered.
proof fn lemma_first_difference(a: Seq<u8>, b: Seq<u8>, k: int)
    requires
        common_prefix(a, b, k),
    ensures
        lex_lt(a, b) || a == b || lex_lt(b, a),
    decreases a.len() - k,
{
    assert(common_prefix(b, a, k));
    if k == a.len() {
        if k == b.len() {
            assert(a =~= b);
        }
    } else if k == b.len() {
    } else if a[k] == b[k] {
        assert(common_prefix(a, b, k + 1));
        lemma_first_difference(a, b, k + 1);
    }
}

/// A place relative to `b` names exactly one of three cases.
pub proof fn lemma_key_order(a: Seq<u8>, b: Seq<u8>)
    ensures
        key_order_of(a, b) == KeyOrder::Before <==> lex_lt(a, b),
        key_order_of(a, b) == KeyOrder::Same <==> a == b,
        key_order_of(a, b) == KeyOrder::After <==> lex_lt(b, a),
{
    lemma_lex_irreflexive(a);
    lemma_lex_asymmetric(a, b);
    lemma_lex_total(a, b);
}

/// Compares two byte strings lexicographically.
pub fn key_order(a: &[u8], b: &[u8]) -> (order: KeyOrder)
    ensures
        order == key_order_of(a@, b@),
{
    let mut i: usize = 0;
    while i < a.len() && i < b.len()
        invariant
            common_prefix(a@, b@, i as int),
        decreases a.len() - i,
    {
        if a[i] < b[i] {
            proof {
                lemma_key_order(a@, b@);
            }
            return KeyOrder::Before;
        }
        if a[i] > b[i] {
            proof {
                assert(common_prefix(b@, a@, i as int));
                lemma_key_order(a@, b@);
            }
            return KeyOrder::After;
        }
        i += 1;
    }
    proof {
        assert(common_prefix(b@, a@, i as int));
        lemma_key_order(a@, b@);
    }
    if a.len() < b.len() {
        KeyOrder::Before
    } else if a.len() == b.len() {
        assert(a@ =~= b@);
        KeyOrder::Same
    } else {
        KeyOrder::After
    }
}

/// Whether two byte strings hold the same bytes.
pub fn same_bytes(a: &[u8], b: &[u8]) -> (same: bool)
    ensures
        same == (a@ == b@),
{
    if a.len() != b.len() {
        return false;
    }
    let mut i: usize = 0;
    while i < a.len()
        invariant
            a@.len() == b@.len(),
            common_prefix(a@, b@, i as int),
        decreases a.len() - i,
    {
        if a[i] != b[i] {
            return false;
        }
        i += 1;
    }
    assert(a@ =~= b@);
    true
}

/// A copy of a byte string.
pub fn copy_bytes(a: &[u8]) -> (copy: Vec<u8>)
    ensures
        copy@ == a@,
{
    let mut copy: Vec<u8> = Vec::with_capacity(a.len());
    let mut i: usize = 0;
    while i < a.len()
        invariant
            i <= a@.len(),
            copy@ == a@.subrange(0, i as int),
        decreases a.len() - i,
    {
        copy.push(a[i]);
        assert(copy@ =~= a@.subrange(0, i + 1));
        i += 1;
    }
    assert(copy@ =~= a@);
    copy
}

/// A copy of the bytes of `a` from place `from` up to, not including, place
/// `to`.
pub fn copy_range(a: &[u8], from: usize, to: usize) -> (copy: Vec<u8>)
    requires
        from <= to <= a@.len(),
    ensures
        copy@ == a@.subrange(from as int, to as int),
{
    let mut copy: Vec<u8> = Vec::with_capacity(to - from);
    let mut i: usize = from;
    while i < to
        invariant
            from <= i <= to <= a@.len(),
            copy@ == a@.subrange(from as int, i as int),
        decreases to - i,
    {
        copy.push(a[i]);
        assert(copy@ =~= a@.subrange(from as int, i + 1));
        i += 1;
    }
    copy
}

/// Appends the bytes of `tail` to `out`.
pub fn append_bytes(out: &mut Vec<u8>, tail: &[u8])
    ensures
        final(out)@ == old(out)@ + tail@,
{
    let mut i: usize = 0;
    while i < tail.len()
        invariant
            i <= tail@.len(),
            out@ == old(out)@ + tail@.subrange(0, i as int),
        decreases tail.len() - i,
    {
        out.push(tail[i]);
        assert(out@ =~= old(out)@ + tail@.subrange(0, i + 1));
        i += 1;
    }
    assert(out@ =~= old(out)@ + tail@);
}

/// Appends the eight bytes of `n`, most significant first.
pub fn push_be64(out: &mut Vec<u8>, n: u64)
    ensures
        final(out)@ == old(out)@ + be64(n),
{
    let q1: u64 = n / 256;
    let q2: u64 = q1 / 256;
    let q3: u64 = q2 / 256;
    let q4: u64 = q3 / 256;
    let q5: u64 = q4 / 256;
    let q6: u64 = q5 / 256;
    let q7: u64 = q6 / 256;
    out.push(q7 as u8);
    out.push((q6 % 256) as u8);
    out.push((q5 % 256) as u8);
    out.push((q4 % 256) as u8);
    out.push((q3 % 256) as u8);
    out.push((q2 % 256) as u8);
    out.push((q1 % 256) as u8);
    out.push((n % 256) as u8);
    proof {
        reveal(be64);
    }
    assert(out@ =~= old(out)@ + be64(n));
}

/// Reads the number that the eight bytes from `at` on spell, if there are
/// eight.
pub fn read_be64(bytes: &[u8], at: usize) -> (number: Option<u64>)
    ensures
        number == if at + 8 <= bytes@.len() {
            Some(be64_value(bytes@.subrange(at as int, at + 8)) as u64)
        } else {
            None
        },
        number is Some <==> at + 8 <= bytes@.len(),
        number is Some ==> number->0 == be64_value(bytes@.subrange(at as int, at + 8)),
{
    if bytes.len() < 8 || at > bytes.len() - 8 {
        return None;
    }
    let ghost s = bytes@.subrange(at as int, at + 8);
    proof {
        reveal(be64_value);
    }
    assert(forall|j: int| 0 <= j < 8 ==> s[j] == bytes@[at + j]);
    let b0: u64 = bytes[at] as u64;
    let b1: u64 = bytes[at + 1] as u64;
    let b2: u64 = bytes[at + 2] as u64;
    let b3: u64 = bytes[at + 3] as u64;
    let b4: u64 = bytes[at + 4] as u64;
    let b5: u64 = bytes[at + 5] as u64;
    let b6: u64 = bytes[at + 6] as u64;
    let b7: u64 = bytes[at + 7] as u64;
    let h1: u64 = b0 * 256 + b1;
    let h2: u64 = h1 * 256 + b2;
    let h3: u64 = h2 * 256 + b3;
    let h4: u64 = h3 * 256 + b4;
    let h5: u64 = h4 * 256 + b5;
    let h6: u64 = h5 * 256 + b6;
    let number: u64 = h6 * 256 + b7;
    Some(number)
}

/// Eight bytes spell a number that fits in 64 bits.
pub proof fn lemma_be64_value_bounds(s: Seq<u8>)
    requires
        s.len() == 8,
    ensures
        be64_value(s) <= u64::MAX,
{
    reveal(be64_value);
}

/// Reading what was written gives the number back.
pub proof fn lemma_be64_read_back(n: u64)
    ensures
        be64(n).len() == 8,
        be64_value(be64(n)) == n,
{
    reveal(be64);
    reveal(be64_value);
}

/// Writing what was read gives the bytes back.
pub proof fn lemma_be64_write_back(s: Seq<u8>)
    requires
        s.len() == 8,
    ensures
        be64(be64_value(s) as u64) == s,
{
    reveal(be64);
    reveal(be64_value);
    let h1 = s[0] * 256 + s[1];
    let h2 = h1 * 256 + s[2];
    let h3 = h2 * 256 + s[3];
    let h4 = h3 * 256 + s[4];
    let h5 = h4 * 256 + s[5];
    let h6 = h5 * 256 + s[6];
    let n = h6 * 256 + s[7];
    assert(n / 256 == h6 && n % 256 == s[7]);
    assert(h6 / 256 == h5 && h6 % 256 == s[6]);
    assert(h5 / 256 == h4 && h5 % 256 == s[5]);
    assert(h4 / 256 == h3 && h4 % 256 == s[4]);
    assert(h3 / 256 == h2 && h3 % 256 == s[3]);
    assert(h2 / 256 == h1 && h2 % 256 == s[2]);
    assert(h1 / 256 == s[0] && h1 % 256 == s[1]);
    assert(be64(n as u64) =~= s);
}

/// The big-endian form preserves order: the bytes of the smaller number come
/// first lexicographically, and only they.
pub proof fn lemma_be64_ordered(a: u64, b: u64)
    ensures
        lex_lt(be64(a), be64(b)) <==> a < b,
{
    if a < b {
        lemma_be64_rising(a, b);
    } else if b < a {
        lemma_be64_rising(b, a);
        lemma_lex_asymmetric(be64(a), be64(b));
    } else {
        lemma_lex_irreflexive(be64(a));
    }
}

proof fn lemma_be64_rising(a: u64, b: u64)
    requires
        a < b,
    ensures
        lex_lt(be64(a), be64(b)),
{
    reveal(be64_value);
    let x = be64(a);
    let y = be64(b);
    lemma_be64_read_back(a);
    lemma_be64_read_back(b);
    let k: int = if x[0] != y[0] {
        0
    } else if x[1] != y[1] {
        1
    } else if x[2] != y[2] {
        2
    } else if x[3] != y[3] {
        3
    } else if x[4] != y[4] {
        4
    } else if x[5] != y[5] {
        5
    } else if x[6] != y[6] {
        6
    } else {
        7
    };
    assert(common_prefix(x, y, k));
    assert(x[k] < y[k]);
}

} // verus!
