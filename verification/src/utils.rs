//! The seeded 32-bit hash over a byte string that the Bloom filter probes
//! are derived from: a Murmur-style mix over 4-byte little-endian words with
//! a progressive fold of the 1-3 trailing bytes.

use vstd::prelude::*;
use crate::codec::le32_val;

verus! {

pub const HASH_SEED: u32 = 0xbc9f1d34;

pub const HASH_M: u32 = 0xc6a4a793;

/// The little-endian 32-bit word of `data` starting at `i`.
pub open spec fn word_at(data: Seq<u8>, i: int) -> u32
    recommends
        0 <= i,
        i + 4 <= data.len(),
{
    le32_val(data.subrange(i, i + 4))
}

/// One round of the word loop: add the word, multiply, xor-shift.
pub open spec fn hash_word_step(h: u32, w: u32) -> u32 {
    let h1 = h.wrapping_add(w).wrapping_mul(HASH_M);
    h1 ^ (h1 >> 24)
}

/// Folds every full 4-byte word of `data` from position `i` into `h`.
pub open spec fn hash_words(data: Seq<u8>, i: int, h: u32) -> u32
    recommends
        0 <= i,
    decreases data.len() - i,
{
    if 0 <= i && i + 4 <= data.len() {
        hash_words(data, i + 4, hash_word_step(h, word_at(data, i)))
    } else {
        h
    }
}

/// Folds the 0-3 trailing bytes of `data` (those from position `i` on) into `h`.
pub open spec fn hash_tail(data: Seq<u8>, i: int, h: u32) -> u32
    recommends
        0 <= i <= data.len(),
        data.len() - i < 4,
{
    let n = data.len() as int;
    let h1 = if n - i == 3 {
        h.wrapping_add((data[i + 2] as u32) << 16)
    } else {
        h
    };
    let h2 = if n - i >= 2 {
        h1.wrapping_add((data[i + 1] as u32) << 8)
    } else {
        h1
    };
    if n - i >= 1 {
        let h3 = h2.wrapping_add(data[i] as u32).wrapping_mul(HASH_M);
        h3 ^ (h3 >> 24)
    } else {
        h2
    }
}

/// The hash of a byte string: seed mixed with the length, then every full
/// word, then the trailing bytes.
pub open spec fn spec_hash(data: Seq<u8>) -> u32
    recommends
        data.len() < 0x1_0000_0000,
{
    let h0 = HASH_SEED ^ (data.len() as u32).wrapping_mul(HASH_M);
    hash_tail(data, data.len() - data.len() % 4, hash_words(data, 0, h0))
}

/// Deterministic seeded hash of `data`, exactly `spec_hash`.
pub fn hash(data: &[u8]) -> (r: u32)
    requires
        data@.len() < 0x1_0000_0000,
    ensures
        r == spec_hash(data@),
{
    let n = data.len();
    let ghost h0 = HASH_SEED ^ (data@.len() as u32).wrapping_mul(HASH_M);
    let mut h: u32 = HASH_SEED ^ (n as u32).wrapping_mul(HASH_M);
    let mut i: usize = 0;
    while n - i >= 4
        invariant
            n == data@.len() < 0x1_0000_0000,
            i <= n,
            i % 4 == 0,
            hash_words(data@, i as int, h) == hash_words(data@, 0, h0),
        decreases n - i,
    {
        let b0 = data[i] as u32;
        let b1 = data[i + 1] as u32;
        let b2 = data[i + 2] as u32;
        let b3 = data[i + 3] as u32;
        let w = b0 + b1 * 256 + b2 * 65536 + b3 * 16777216;
        proof {
            assert(w == word_at(data@, i as int)) by {
                assert(data@.subrange(i as int, i + 4)[0] == data@[i as int]);
                assert(data@.subrange(i as int, i + 4)[1] == data@[i + 1]);
                assert(data@.subrange(i as int, i + 4)[2] == data@[i + 2]);
                assert(data@.subrange(i as int, i + 4)[3] == data@[i + 3]);
            }
        }
        h = h.wrapping_add(w);
        h = h.wrapping_mul(HASH_M);
        h = h ^ (h >> 24);
        i = i + 4;
    }
    proof {
        assert(hash_words(data@, i as int, h) == h);
        assert(i == n - n % 4) by {
            assert(n - i < 4);
        }
    }
    if n - i == 3 {
        h = h.wrapping_add((data[i + 2] as u32) << 16);
    }
    if n - i >= 2 {
        h = h.wrapping_add((data[i + 1] as u32) << 8);
    }
    if n - i >= 1 {
        h = h.wrapping_add(data[i] as u32);
        h = h.wrapping_mul(HASH_M);
        h = h ^ (h >> 24);
    }
    h
}

} // verus!

verus! {

// ---------------------------------------------------------------------------
// Lexicographic order on byte-string keys
// ---------------------------------------------------------------------------

/// Strict lexicographic order on byte strings: a proper prefix comes first,
/// otherwise the first differing byte decides.
pub open spec fn lex_lt(a: Seq<u8>, b: Seq<u8>) -> bool
    decreases a.len(),
{
    if b.len() == 0 {
        false
    } else if a.len() == 0 {
        true
    } else if a[0] < b[0] {
        true
    } else if a[0] > b[0] {
        false
    } else {
        lex_lt(a.subrange(1, a.len() as int), b.subrange(1, b.len() as int))
    }
}

/// Non-strict lexicographic order.
pub open spec fn lex_leq(a: Seq<u8>, b: Seq<u8>) -> bool {
    lex_lt(a, b) || a == b
}

/// Dropping a common prefix of length `i` does not change the order.
pub proof fn lemma_lex_skip(a: Seq<u8>, b: Seq<u8>, i: int)
    requires
        0 <= i <= a.len(),
        i <= b.len(),
        forall|j: int| 0 <= j < i ==> a[j] == b[j],
    ensures
        lex_lt(a, b) == lex_lt(a.subrange(i, a.len() as int), b.subrange(i, b.len() as int)),
    decreases i,
{
    if i == 0 {
        assert(a.subrange(0, a.len() as int) =~= a);
        assert(b.subrange(0, b.len() as int) =~= b);
    } else {
        let a1 = a.subrange(1, a.len() as int);
        let b1 = b.subrange(1, b.len() as int);
        lemma_lex_skip(a1, b1, i - 1);
        assert(a1.subrange(i - 1, a1.len() as int) =~= a.subrange(i, a.len() as int));
        assert(b1.subrange(i - 1, b1.len() as int) =~= b.subrange(i, b.len() as int));
    }
}

/// Exactly one of `a < b`, `a == b`, `b < a` holds.
pub proof fn lemma_lex_total(a: Seq<u8>, b: Seq<u8>)
    ensures
        lex_lt(a, b) || lex_lt(b, a) || a == b,
        lex_lt(a, b) ==> !lex_lt(b, a) && a != b,
    decreases a.len() + b.len(),
{
    if a.len() > 0 && b.len() > 0 && a[0] == b[0] {
        let a1 = a.subrange(1, a.len() as int);
        let b1 = b.subrange(1, b.len() as int);
        lemma_lex_total(a1, b1);
        if a1 == b1 {
            assert forall|i: int| 0 <= i < a.len() implies a[i] == b[i] by {
                if i >= 1 {
                    assert(a1[i - 1] == a[i]);
                    assert(b1[i - 1] == b[i]);
                }
            }
            assert(a =~= b);
        }
    } else if a.len() == 0 && b.len() == 0 {
        assert(a =~= b);
    }
}

/// Lexicographic order is transitive.
pub proof fn lemma_lex_trans(a: Seq<u8>, b: Seq<u8>, c: Seq<u8>)
    requires
        lex_lt(a, b),
        lex_lt(b, c),
    ensures
        lex_lt(a, c),
    decreases a.len() + b.len() + c.len(),
{
    if b.len() > 0 && c.len() > 0 {
        if a.len() == 0 {
        } else {
            if a[0] == b[0] && b[0] == c[0] {
                lemma_lex_trans(
                    a.subrange(1, a.len() as int),
                    b.subrange(1, b.len() as int),
                    c.subrange(1, c.len() as int),
                );
            }
        }
    }
}

/// Compares two keys; `true` exactly when `a` comes strictly before `b`.
pub fn key_lt(a: &Vec<u8>, b: &Vec<u8>) -> (r: bool)
    ensures
        r == lex_lt(a@, b@),
{
    let mut i: usize = 0;
    loop
        invariant
            i <= a@.len(),
            i <= b@.len(),
            forall|j: int| 0 <= j < i ==> a@[j] == b@[j],
        decreases a@.len() - i,
    {
        if i >= a.len() || i >= b.len() {
            proof {
                lemma_lex_skip(a@, b@, i as int);
            }
            return a.len() < b.len();
        }
        let x = a[i];
        let y = b[i];
        if x < y {
            proof {
                lemma_lex_skip(a@, b@, i as int);
            }
            return true;
        }
        if x > y {
            proof {
                lemma_lex_skip(a@, b@, i as int);
            }
            return false;
        }
        i = i + 1;
    }
}

/// Byte-for-byte equality of two keys.
pub fn key_eq(a: &Vec<u8>, b: &Vec<u8>) -> (r: bool)
    ensures
        r == (a@ == b@),
{
    if a.len() != b.len() {
        return false;
    }
    let mut i: usize = 0;
    while i < a.len()
        invariant
            a@.len() == b@.len(),
            i <= a@.len(),
            forall|j: int| 0 <= j < i ==> a@[j] == b@[j],
        decreases a@.len() - i,
    {
        if a[i] != b[i] {
            return false;
        }
        i = i + 1;
    }
    proof {
        assert(a@ =~= b@);
    }
    true
}

/// Copies a byte string.
pub fn copy_bytes(v: &Vec<u8>) -> (r: Vec<u8>)
    ensures
        r@ == v@,
{
    let mut out: Vec<u8> = Vec::new();
    let mut i: usize = 0;
    while i < v.len()
        invariant
            i <= v@.len(),
            out@ == v@.subrange(0, i as int),
        decreases v@.len() - i,
    {
        out.push(v[i]);
        proof {
            assert(out@ =~= v@.subrange(0, i + 1));
        }
        i = i + 1;
    }
    proof {
        assert(v@.subrange(0, v@.len() as int) =~= v@);
    }
    out
}

/// Appends `src[from..to]` to `dst`.
pub fn append_range(dst: &mut Vec<u8>, src: &Vec<u8>, from: usize, to: usize)
    requires
        from <= to <= src@.len(),
    ensures
        final(dst)@ == old(dst)@ + src@.subrange(from as int, to as int),
{
    let mut i: usize = from;
    while i < to
        invariant
            from <= i <= to,
            to <= src@.len(),
            dst@ == old(dst)@ + src@.subrange(from as int, i as int),
        decreases to - i,
    {
        dst.push(src[i]);
        proof {
            assert(dst@ =~= old(dst)@ + src@.subrange(from as int, i + 1));
        }
        i = i + 1;
    }
}

/// Appends `src[from..]` to `dst`.
pub fn append_from(dst: &mut Vec<u8>, src: &Vec<u8>, from: usize)
    requires
        from <= src@.len(),
    ensures
        final(dst)@ == old(dst)@ + src@.subrange(from as int, src@.len() as int),
{
    append_range(dst, src, from, src.len());
}

} // verus!
