//! Fixed-width and variable-width integer encodings used by the table format.
//!
//! All multi-byte integers in the table format are little-endian. Lengths and
//! offsets inside block payloads use a base-128 variable-length encoding.

use vstd::prelude::*;
use vstd::arithmetic::div_mod::lemma_fundamental_div_mod;

verus! {

// ---------------------------------------------------------------------------
// Fixed-width 32-bit little-endian integers
// ---------------------------------------------------------------------------

/// The four little-endian bytes of `n`.
pub open spec fn le32(n: u32) -> Seq<u8> {
    seq![
        (n % 256) as u8,
        ((n / 256) % 256) as u8,
        ((n / 65536) % 256) as u8,
        ((n / 16777216) % 256) as u8,
    ]
}

/// The value of four little-endian bytes.
pub open spec fn le32_val(b: Seq<u8>) -> u32
    recommends
        b.len() == 4,
{
    (b[0] + b[1] * 256 + b[2] * 65536 + b[3] * 16777216) as u32
}

/// Reading back the four bytes of `n` yields `n`.
pub proof fn lemma_le32_round_trip(n: u32)
    ensures
        le32(n).len() == 4,
        le32_val(le32(n)) == n,
{
    assert(n % 256 + n / 256 % 256 * 256 + n / 65536 % 256 * 65536 + n / 16777216 % 256 * 16777216
        == n) by (bit_vector);
}

/// Appends the four little-endian bytes of `n` to `buf`.
pub fn put_u32_le(buf: &mut Vec<u8>, n: u32)
    ensures
        final(buf)@ == old(buf)@ + le32(n),
{
    buf.push((n % 256) as u8);
    buf.push((n / 256 % 256) as u8);
    buf.push((n / 65536 % 256) as u8);
    buf.push((n / 16777216 % 256) as u8);
    proof {
        assert(buf@ =~= old(buf)@ + le32(n));
    }
}

/// Reads the 32-bit little-endian integer stored at `pos`.
pub fn get_u32_le(buf: &Vec<u8>, pos: usize) -> (r: u32)
    requires
        pos + 4 <= buf.len(),
    ensures
        r == le32_val(buf@.subrange(pos as int, pos + 4)),
{
    let b0 = buf[pos] as u32;
    let b1 = buf[pos + 1] as u32;
    let b2 = buf[pos + 2] as u32;
    let b3 = buf[pos + 3] as u32;
    b0 + b1 * 256 + b2 * 65536 + b3 * 16777216
}

// ---------------------------------------------------------------------------
// Base-128 variable-length integers
// ---------------------------------------------------------------------------

/// The variable-length encoding of `n`: seven value bits per byte, least
/// significant group first, high bit set on every byte but the last.
pub open spec fn varint(n: nat) -> Seq<u8>
    decreases n,
{
    if n < 128 {
        seq![n as u8]
    } else {
        seq![(128 + n % 128) as u8] + varint(n / 128)
    }
}


/// Appends the variable-length encoding of `n` to `buf`.
pub fn put_varint(buf: &mut Vec<u8>, n: u32)
    ensures
        final(buf)@ == old(buf)@ + varint(n as nat),
{
    let mut m = n;
    while m >= 128
        invariant
            old(buf)@ + varint(n as nat) == buf@ + varint(m as nat),
        decreases m,
    {
        buf.push((128 + m % 128) as u8);
        proof {
            assert(varint(m as nat) == seq![(128 + m as nat % 128) as u8] + varint(m as nat / 128));
            assert(old(buf)@ + varint(n as nat) =~= buf@ + varint((m / 128) as nat));
        }
        m = m / 128;
    }
    buf.push(m as u8);
    proof {
        assert(varint(m as nat) == seq![m as u8]);
        assert(old(buf)@ + varint(n as nat) =~= buf@);
    }
}

/// 128 raised to `f`; bounds the value a variable-length parse can produce.
pub open spec fn pow128(f: nat) -> nat
    decreases f,
{
    if f == 0 {
        1
    } else {
        128 * pow128((f - 1) as nat)
    }
}

pub proof fn lemma_pow128_values()
    ensures
        pow128(0) == 1,
        pow128(1) == 128,
        pow128(2) == 0x4000,
        pow128(3) == 0x20_0000,
        pow128(4) == 0x1000_0000,
        pow128(5) == 0x8_0000_0000,
{
    assert(pow128(0) == 1);
    assert(pow128(1) == 128 * pow128(0));
    assert(pow128(2) == 128 * pow128(1));
    assert(pow128(3) == 128 * pow128(2));
    assert(pow128(4) == 128 * pow128(3));
    assert(pow128(5) == 128 * pow128(4));
}

pub proof fn lemma_pow128_pos(f: nat)
    ensures
        pow128(f) >= 1,
    decreases f,
{
    if f > 0 {
        lemma_pow128_pos((f - 1) as nat);
        assert(128 * pow128((f - 1) as nat) >= pow128((f - 1) as nat)) by (nonlinear_arith)
            requires
                pow128((f - 1) as nat) >= 0,
        ;
    }
}

/// The encoding of any value below `pow128(f)` takes at most `f` bytes.
pub proof fn lemma_varint_len_bound(n: nat, f: nat)
    requires
        f >= 1,
        n < pow128(f),
    ensures
        varint(n).len() <= f,
    decreases f,
{
    if n >= 128 {
        assert(n / 128 < pow128((f - 1) as nat)) by (nonlinear_arith)
            requires
                n < 128 * pow128((f - 1) as nat),
        ;
        lemma_varint_len_bound(n / 128, (f - 1) as nat);
    }
}

pub proof fn lemma_varint_len(n: nat)
    ensures
        1 <= varint(n).len(),
        n < 0x1_0000_0000 ==> varint(n).len() <= 5,
    decreases n,
{
    if n < 0x1_0000_0000 {
        lemma_pow128_values();
        lemma_varint_len_bound(n, 5);
    }
}

/// What a variable-length parse of `s` starting at `pos` yields, reading at
/// most `fuel` bytes: the value and the position just past its last byte.
pub open spec fn varint_parse(s: Seq<u8>, pos: int, fuel: nat) -> Option<(nat, int)>
    decreases fuel,
{
    if pos < 0 || pos >= s.len() || fuel == 0 {
        None
    } else if s[pos] < 128 {
        Some((s[pos] as nat, pos + 1))
    } else {
        match varint_parse(s, pos + 1, (fuel - 1) as nat) {
            None => None,
            Some((m, p2)) => Some(((s[pos] - 128) as nat + 128 * m, p2)),
        }
    }
}

/// A parse never yields a value of `pow128(fuel)` or more, never stands
/// still, and never reads past the end of `s`.
pub proof fn lemma_varint_parse_bounds(s: Seq<u8>, pos: int, fuel: nat)
    ensures
        varint_parse(s, pos, fuel) matches Some((n, p2)) ==> n < pow128(fuel) && pos < p2
            <= s.len() && p2 - pos <= fuel,
    decreases fuel,
{
    if 0 <= pos < s.len() && fuel > 0 {
        if s[pos] < 128 {
            lemma_pow128_pos((fuel - 1) as nat);
            assert(pow128(fuel) == 128 * pow128((fuel - 1) as nat));
            assert(128 * pow128((fuel - 1) as nat) >= 128) by (nonlinear_arith)
                requires
                    pow128((fuel - 1) as nat) >= 1,
            ;
        } else {
            lemma_varint_parse_bounds(s, pos + 1, (fuel - 1) as nat);
            match varint_parse(s, pos + 1, (fuel - 1) as nat) {
                None => {},
                Some((m, p2)) => {
                    assert((s[pos] - 128) as nat + 128 * m < 128 * pow128((fuel - 1) as nat)) by {
                        assert(128 * m <= 128 * (pow128((fuel - 1) as nat) - 1)) by (nonlinear_arith)
                            requires
                                m <= pow128((fuel - 1) as nat) - 1,
                        ;
                    }
                },
            }
        }
    }
}

/// Parsing a buffer that starts (at `pos`) with the encoding of `n` yields
/// exactly `n`, ending just past the encoding.
pub proof fn lemma_varint_parse_encoding(s: Seq<u8>, pos: int, fuel: nat, n: nat)
    requires
        0 <= pos,
        pos + varint(n).len() <= s.len(),
        s.subrange(pos, pos + varint(n).len() as int) == varint(n),
        varint(n).len() <= fuel,
    ensures
        varint_parse(s, pos, fuel) == Some((n, pos + varint(n).len())),
    decreases n,
{
    if n < 128 {
        assert(s[pos] == varint(n)[0]);
    } else {
        let tail = varint(n / 128);
        assert(s[pos] == varint(n)[0]);
        assert forall|i: int| 0 <= i < tail.len() implies s.subrange(
            pos + 1,
            pos + 1 + tail.len() as int,
        )[i] == tail[i] by {
            assert(s[pos + 1 + i] == varint(n)[1 + i]);
        }
        assert(s.subrange(pos + 1, pos + 1 + tail.len() as int) =~= tail);
        lemma_varint_parse_encoding(s, pos + 1, (fuel - 1) as nat, n / 128);
        lemma_fundamental_div_mod(n as int, 128);
        assert((s[pos] - 128) as nat + 128 * (n / 128) == n);
    }
}

/// Reads one variable-length integer at `pos`; fails on truncated input, an
/// over-long encoding, or a value that does not fit in 32 bits.
pub fn get_varint(buf: &Vec<u8>, pos: usize) -> (r: Option<(u32, usize)>)
    ensures
        r matches Some((n, p2)) ==> {
            &&& varint_parse(buf@, pos as int, 5) == Some((n as nat, p2 as int))
            &&& pos < p2 <= buf@.len()
        },
        r is None ==> (varint_parse(buf@, pos as int, 5) matches Some((n, _)) ==> n
            >= 0x1_0000_0000),
{
    proof {
        lemma_varint_parse_bounds(buf@, pos as int, 5);
    }
    let r = get_varint_rec(buf, pos, 5);
    match r {
        None => None,
        Some((n, p2)) => {
            if n <= 0xffff_ffff {
                Some((n as u32, p2))
            } else {
                None
            }
        },
    }
}

/// Recursive worker for `get_varint`, mirroring `varint_parse`.
fn get_varint_rec(buf: &Vec<u8>, pos: usize, fuel: u8) -> (r: Option<(u64, usize)>)
    requires
        fuel <= 5,
    ensures
        r is Some <==> varint_parse(buf@, pos as int, fuel as nat) is Some,
        r matches Some((n, p2)) ==> varint_parse(buf@, pos as int, fuel as nat) == Some(
            (n as nat, p2 as int),
        ),
    decreases fuel,
{
    if pos >= buf.len() || fuel == 0 {
        return None;
    }
    let b = buf[pos];
    if b < 128 {
        Some((b as u64, pos + 1))
    } else {
        match get_varint_rec(buf, pos + 1, fuel - 1) {
            None => None,
            Some((m, p2)) => {
                proof {
                    lemma_varint_parse_bounds(buf@, pos as int + 1, (fuel - 1) as nat);
                    lemma_pow128_mono((fuel - 1) as nat, 4);
                    lemma_pow128_values();
                }
                Some(((b - 128) as u64 + 128 * m, p2))
            },
        }
    }
}

proof fn lemma_pow128_mono(a: nat, b: nat)
    requires
        a <= b,
    ensures
        pow128(a) <= pow128(b),
    decreases b,
{
    if a < b {
        lemma_pow128_mono(a, (b - 1) as nat);
        assert(pow128((b - 1) as nat) <= 128 * pow128((b - 1) as nat)) by (nonlinear_arith)
            requires
                pow128((b - 1) as nat) >= 0,
        ;
    }
}

} // verus!
