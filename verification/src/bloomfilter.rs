//! Probabilistic set-membership filter: no false negatives, bounded false
//! positives. Built once over a finite key set; `key_may_match` recomputes
//! the same probe sequence, so every inserted key is always answered `true`.

use vstd::prelude::*;
use crate::utils::{hash, spec_hash};
use crate::codec::{le32, put_u32_le, get_u32_le, le32_val, lemma_le32_round_trip};

verus! {

/// Bits reserved per key when sizing the array.
pub const BITS_PER_KEY: u8 = 10;

/// Number of probes per key (roughly BITS_PER_KEY * ln 2).
pub const PROBES: u8 = 6;

/// Whether bit `pos` of the bit array `arr` is set (bit `pos % 8` of byte
/// `pos / 8`, least significant bit first).
pub open spec fn bit_set(arr: Seq<u8>, pos: int) -> bool
    recommends
        0 <= pos < arr.len() * 8,
{
    (arr[pos / 8] >> ((pos % 8) as u8)) & 1 == 1
}

/// The per-key probe stride: the key's hash rotated right by 17 bits.
pub open spec fn probe_delta(key: Seq<u8>) -> u32 {
    let h = spec_hash(key);
    (h >> 17) | (h << 15)
}

/// The `j`-th probe hash of a key: the hash plus `j` strides, wrapping.
pub open spec fn probe_hash(key: Seq<u8>, j: nat) -> u32
    decreases j,
{
    if j == 0 {
        spec_hash(key)
    } else {
        probe_hash(key, (j - 1) as nat).wrapping_add(probe_delta(key))
    }
}

/// The bit position probed by the `j`-th probe in an array of `bits` bits.
pub open spec fn probe_pos(key: Seq<u8>, j: nat, bits: nat) -> int
    recommends
        bits > 0,
{
    probe_hash(key, j) as int % bits as int
}

/// All `k` probe bits of `key` are set in `arr`.
pub open spec fn all_probes_set(arr: Seq<u8>, key: Seq<u8>, k: nat) -> bool {
    forall|j: nat| j < k ==> bit_set(arr, #[trigger] probe_pos(key, j, arr.len() * 8))
}

/// The serialized form of a filter: length-prefixed bit array, then the
/// probe count.
pub open spec fn bloom_bytes(arr: Seq<u8>, k: u8) -> Seq<u8> {
    le32(arr.len() as u32) + arr + seq![k]
}

/// Two filters with the same serialized form are the same filter.
pub proof fn lemma_bloom_bytes_injective(arr1: Seq<u8>, k1: u8, arr2: Seq<u8>, k2: u8)
    requires
        arr1.len() < 0x1_0000_0000,
        arr2.len() < 0x1_0000_0000,
        bloom_bytes(arr1, k1) == bloom_bytes(arr2, k2),
    ensures
        arr1 == arr2,
        k1 == k2,
{
    lemma_le32_round_trip(arr1.len() as u32);
    lemma_le32_round_trip(arr2.len() as u32);
    let b1 = bloom_bytes(arr1, k1);
    let b2 = bloom_bytes(arr2, k2);
    assert(b1.subrange(0, 4) =~= le32(arr1.len() as u32));
    assert(b2.subrange(0, 4) =~= le32(arr2.len() as u32));
    assert(arr1.len() == arr2.len());
    assert forall|i: int| 0 <= i < arr1.len() implies arr1[i] == arr2[i] by {
        assert(b1[4 + i] == arr1[i]);
        assert(b2[4 + i] == arr2[i]);
    }
    assert(arr1 =~= arr2);
    assert(k1 == b1[b1.len() - 1]);
    assert(k2 == b2[b2.len() - 1]);
}

/// Reads bit `pos` of the array.
fn get_bit(arr: &Vec<u8>, pos: usize) -> (r: bool)
    requires
        pos < arr@.len() * 8,
    ensures
        r == bit_set(arr@, pos as int),
{
    let byte = arr[pos / 8];
    (byte >> ((pos % 8) as u8)) & 1 == 1
}

/// Sets bit `pos` of the array; every other bit keeps its value.
fn set_bit(arr: &mut Vec<u8>, pos: usize)
    requires
        pos < old(arr)@.len() * 8,
    ensures
        final(arr)@.len() == old(arr)@.len(),
        bit_set(final(arr)@, pos as int),
        forall|q: int|
            0 <= q < old(arr)@.len() * 8 && q != pos ==> bit_set(final(arr)@, q) == bit_set(
                old(arr)@,
                q,
            ),
        forall|q: int|
            0 <= q < old(arr)@.len() * 8 && bit_set(old(arr)@, q) ==> bit_set(final(arr)@, q),
{
    let idx = pos / 8;
    let s = (pos % 8) as u8;
    let b = arr[idx];
    let nb = b | (1u8 << s);
    arr[idx] = nb;
    proof {
        assert((nb >> s) & 1 == 1) by (bit_vector)
            requires
                nb == b | (1u8 << s),
                s < 8,
        ;
        assert forall|q: int|
            0 <= q < old(arr)@.len() * 8 && q != pos implies bit_set(arr@, q) == bit_set(
            old(arr)@,
            q,
        ) by {
            if q / 8 == idx {
                let t = (q % 8) as u8;
                assert(t != s);
                assert((nb >> t) & 1 == (b >> t) & 1) by (bit_vector)
                    requires
                        nb == b | (1u8 << s),
                        s < 8,
                        t < 8,
                        t != s,
                ;
            }
        }
    }
}


/// Sets the six probe bits of `key`; a bit changes exactly when one of the
/// probes lands on it.
#[verifier::rlimit(100)]
fn set_probes(arr: &mut Vec<u8>, key: &Vec<u8>)
    requires
        key@.len() < 0x1_0000_0000,
        old(arr)@.len() >= 1,
        old(arr)@.len() * 8 < 0x1_0000_0000,
    ensures
        final(arr)@.len() == old(arr)@.len(),
        forall|pos: int|
            #![trigger bit_set(final(arr)@, pos)]
            0 <= pos < old(arr)@.len() * 8 ==> (bit_set(final(arr)@, pos) <==> bit_set(
                old(arr)@,
                pos,
            ) || exists|j: nat|
                j < PROBES as nat && #[trigger] probe_pos(key@, j, old(arr)@.len() * 8) == pos),
{
    let bits = arr.len() * 8;
    let mut h: u32 = hash(key.as_slice());
    let delta: u32 = (h >> 17) | (h << 15);
    let mut j: u8 = 0;
    while j < PROBES
        invariant
            bits == old(arr)@.len() * 8 < 0x1_0000_0000,
            arr@.len() == old(arr)@.len() >= 1,
            j <= PROBES,
            key@.len() < 0x1_0000_0000,
            h == probe_hash(key@, j as nat),
            delta == probe_delta(key@),
            forall|pos: int|
                #![trigger bit_set(arr@, pos)]
                0 <= pos < bits ==> (bit_set(arr@, pos) <==> bit_set(old(arr)@, pos) || exists|j2: nat|
                    j2 < j as nat && #[trigger] probe_pos(key@, j2, bits as nat) == pos),
        decreases PROBES - j,
    {
        let ghost prev = arr@;
        let bitpos = (h as usize) % bits;
        set_bit(arr, bitpos);
        proof {
            assert(bitpos as int == probe_pos(key@, j as nat, bits as nat));
            assert forall|pos: int|
                #![trigger bit_set(arr@, pos)]
                0 <= pos < bits implies (bit_set(arr@, pos) <==> bit_set(old(arr)@, pos) || exists|j2: nat|
                j2 < (j + 1) as nat && #[trigger] probe_pos(key@, j2, bits as nat) == pos) by {
                if pos == bitpos {
                    assert(probe_pos(key@, j as nat, bits as nat) == pos);
                    assert(bit_set(arr@, pos));
                } else {
                    assert(bit_set(arr@, pos) == bit_set(prev, pos));
                    if exists|j2: nat|
                        j2 < (j + 1) as nat && #[trigger] probe_pos(key@, j2, bits as nat) == pos {
                        let j2 = choose|j2: nat|
                            j2 < (j + 1) as nat && #[trigger] probe_pos(key@, j2, bits as nat)
                                == pos;
                        assert(j2 != j as nat);
                    }
                }
            }
        }
        h = h.wrapping_add(delta);
        j = j + 1;
    }
}


/// Sets the probe bits of every key into a freshly zeroed array: afterwards
/// a bit is set exactly when some probe of some key lands on it.
#[verifier::rlimit(100)]
fn fill_probes(arr: &mut Vec<u8>, keys: &Vec<Vec<u8>>)
    requires
        forall|i: int| 0 <= i < keys@.len() ==> #[trigger] keys@[i]@.len() < 0x1_0000_0000,
        old(arr)@.len() >= 1,
        old(arr)@.len() * 8 < 0x1_0000_0000,
        forall|pos: int| 0 <= pos < old(arr)@.len() * 8 ==> !bit_set(old(arr)@, pos),
    ensures
        final(arr)@.len() == old(arr)@.len(),
        forall|pos: int|
            #![trigger bit_set(final(arr)@, pos)]
            0 <= pos < old(arr)@.len() * 8 ==> (bit_set(final(arr)@, pos) <==> exists|i: int, j: nat|
                0 <= i < keys@.len() && j < PROBES as nat && #[trigger] probe_pos(
                    keys@[i]@,
                    j,
                    old(arr)@.len() * 8,
                ) == pos),
{
    let n = keys.len();
    let mut ki: usize = 0;
    while ki < n
        invariant
            n == keys@.len(),
            ki <= n,
            arr@.len() == old(arr)@.len() >= 1,
            old(arr)@.len() * 8 < 0x1_0000_0000,
            forall|i: int| 0 <= i < keys@.len() ==> #[trigger] keys@[i]@.len() < 0x1_0000_0000,
            forall|pos: int|
                #![trigger bit_set(arr@, pos)]
                0 <= pos < old(arr)@.len() * 8 ==> (bit_set(arr@, pos) <==> exists|i: int, j2: nat|
                    0 <= i < ki && j2 < PROBES as nat && #[trigger] probe_pos(
                        keys@[i]@,
                        j2,
                        old(arr)@.len() * 8,
                    ) == pos),
        decreases n - ki,
    {
        let ghost arr_ki = arr@;
        set_probes(arr, &keys[ki]);
        proof {
            assert forall|pos: int|
                #![trigger bit_set(arr@, pos)]
                0 <= pos < old(arr)@.len() * 8 implies (bit_set(arr@, pos) <==> exists|i: int, j2: nat|
                0 <= i < ki + 1 && j2 < PROBES as nat && #[trigger] probe_pos(
                    keys@[i]@,
                    j2,
                    old(arr)@.len() * 8,
                ) == pos) by {
                if bit_set(arr@, pos) {
                    if bit_set(arr_ki, pos) {
                        let (i, j2) = choose|i: int, j2: nat|
                            0 <= i < ki && j2 < PROBES as nat && #[trigger] probe_pos(
                                keys@[i]@,
                                j2,
                                old(arr)@.len() * 8,
                            ) == pos;
                        assert(0 <= i < ki + 1 && j2 < PROBES as nat && probe_pos(
                            keys@[i]@,
                            j2,
                            old(arr)@.len() * 8,
                        ) == pos);
                    } else {
                        let j2 = choose|j2: nat|
                            j2 < PROBES as nat && #[trigger] probe_pos(
                                keys@[ki as int]@,
                                j2,
                                arr_ki.len() * 8,
                            ) == pos;
                        assert(0 <= ki < ki + 1 && j2 < PROBES as nat && probe_pos(
                            keys@[ki as int]@,
                            j2,
                            old(arr)@.len() * 8,
                        ) == pos);
                    }
                } else {
                    if exists|i: int, j2: nat|
                        0 <= i < ki + 1 && j2 < PROBES as nat && #[trigger] probe_pos(
                            keys@[i]@,
                            j2,
                            old(arr)@.len() * 8,
                        ) == pos {
                        let (i, j2) = choose|i: int, j2: nat|
                            0 <= i < ki + 1 && j2 < PROBES as nat && #[trigger] probe_pos(
                                keys@[i]@,
                                j2,
                                old(arr)@.len() * 8,
                            ) == pos;
                        if i < ki {
                            assert(bit_set(arr_ki, pos));
                            assert(bit_set(arr@, pos));
                        } else {
                            assert(probe_pos(keys@[ki as int]@, j2, arr_ki.len() * 8) == pos);
                            assert(bit_set(arr@, pos));
                        }
                    }
                }
            }
        }
        ki = ki + 1;
    }
}

pub struct BloomFilter {
    k: u8,
    array: Vec<u8>,
}

impl BloomFilter {
    pub closed spec fn spec_k(&self) -> u8 {
        self.k
    }

    pub closed spec fn spec_array(&self) -> Seq<u8> {
        self.array@
    }

    /// The filter's structural invariant: a non-empty bit array whose bit
    /// count fits the 32-bit hash domain, and at least one probe.
    pub open spec fn wf(&self) -> bool {
        &&& self.spec_array().len() >= 1
        &&& self.spec_array().len() * 8 < 0x1_0000_0000
        &&& self.spec_k() >= 1
    }

    /// Whether this filter answers `true` for `key`.
    pub open spec fn spec_may_match(&self, key: Seq<u8>) -> bool {
        all_probes_set(self.spec_array(), key, self.spec_k() as nat)
    }

    /// Builds a filter over the given keys: the array holds
    /// `max(64, 10 * n)` bits rounded up to a whole byte, and a bit is set
    /// exactly when some probe of some key lands on it — so no inserted key
    /// is ever answered `false`, and no other bit is spent.
    #[verifier::rlimit(100)]
    pub fn new(keys: &Vec<Vec<u8>>) -> (r: BloomFilter)
        requires
            forall|i: int| 0 <= i < keys@.len() ==> #[trigger] keys@[i]@.len() < 0x1_0000_0000,
            keys@.len() * 10 + 7 < 0x1_0000_0000,
        ensures
            r.wf(),
            r.spec_k() == PROBES,
            forall|i: int| 0 <= i < keys@.len() ==> r.spec_may_match(#[trigger] keys@[i]@),
            r.spec_array().len() == ((if 10 * keys@.len() > 64 {
                10 * keys@.len() as int
            } else {
                64int
            }) + 7) / 8,
            forall|pos: int|
                #![trigger bit_set(r.spec_array(), pos)]
                0 <= pos < r.spec_array().len() * 8 ==> (bit_set(r.spec_array(), pos)
                    <==> exists|i: int, j: nat|
                    0 <= i < keys@.len() && j < PROBES as nat && #[trigger] probe_pos(
                        keys@[i]@,
                        j,
                        r.spec_array().len() * 8,
                    ) == pos),
    {
        let n = keys.len();
        let bits0: usize = if 10 * n > 64 {
            10 * n
        } else {
            64
        };
        let bytes: usize = (bits0 + 7) / 8;
        let mut array: Vec<u8> = Vec::new();
        while array.len() < bytes
            invariant
                array@.len() <= bytes,
                forall|q: int| 0 <= q < array@.len() ==> array@[q] == 0,
            decreases bytes - array@.len(),
        {
            array.push(0u8);
        }
        proof {
            assert forall|pos: int| 0 <= pos < array@.len() * 8 implies !bit_set(array@, pos) by {
                let t = (pos % 8) as u8;
                assert((0u8 >> t) & 1 == 0) by (bit_vector)
                    requires
                        t < 8,
                ;
            }
        }
        let ghost arr0 = array@;
        fill_probes(&mut array, keys);
        let ghost arrv = array@;
        let r = BloomFilter { k: PROBES, array };
        proof {
            assert(r.spec_array() == arrv);
            assert(arrv.len() == arr0.len());
            assert forall|pos: int|
                #![trigger bit_set(r.spec_array(), pos)]
                0 <= pos < r.spec_array().len() * 8 implies (bit_set(r.spec_array(), pos)
                <==> exists|i: int, j: nat|
                0 <= i < keys@.len() && j < PROBES as nat && #[trigger] probe_pos(
                    keys@[i]@,
                    j,
                    r.spec_array().len() * 8,
                ) == pos) by {
                if bit_set(arrv, pos) {
                    let (i, j2) = choose|i: int, j2: nat|
                        0 <= i < keys@.len() && j2 < PROBES as nat && #[trigger] probe_pos(
                            keys@[i]@,
                            j2,
                            arr0.len() * 8,
                        ) == pos;
                    assert(probe_pos(keys@[i]@, j2, r.spec_array().len() * 8) == pos);
                }
                if exists|i: int, j: nat|
                    0 <= i < keys@.len() && j < PROBES as nat && #[trigger] probe_pos(
                        keys@[i]@,
                        j,
                        r.spec_array().len() * 8,
                    ) == pos {
                    let (i, j2) = choose|i: int, j: nat|
                        0 <= i < keys@.len() && j < PROBES as nat && #[trigger] probe_pos(
                            keys@[i]@,
                            j,
                            r.spec_array().len() * 8,
                        ) == pos;
                    assert(probe_pos(keys@[i]@, j2, arr0.len() * 8) == pos);
                    assert(bit_set(arrv, pos));
                }
            }
            assert forall|i: int| 0 <= i < keys@.len() implies r.spec_may_match(
                #[trigger] keys@[i]@,
            ) by {
                assert forall|j: nat| j < PROBES as nat implies bit_set(
                    r.spec_array(),
                    #[trigger] probe_pos(keys@[i]@, j, r.spec_array().len() * 8),
                ) by {
                    let pos = probe_pos(keys@[i]@, j, r.spec_array().len() * 8);
                    assert(0 <= pos < r.spec_array().len() * 8);
                    assert(probe_pos(keys@[i]@, j, arr0.len() * 8) == pos);
                    assert(bit_set(arrv, pos));
                }
            }
        }
        r
    }

    /// Number of bytes in the filter's bit array.
    pub fn serialized_array_len(&self) -> (r: usize)
        ensures
            r == self.spec_array().len(),
    {
        self.array.len()
    }

    /// Recomputes the probe sequence of `key`: `false` as soon as one probed
    /// bit is unset (so there are no false negatives by construction),
    /// `true` only when all probed bits are set.
    pub fn key_may_match(&self, key: &[u8]) -> (r: bool)
        requires
            self.wf(),
            key@.len() < 0x1_0000_0000,
        ensures
            r == self.spec_may_match(key@),
    {
        let bits = self.array.len() * 8;
        let mut h: u32 = hash(key);
        let delta: u32 = (h >> 17) | (h << 15);
        let mut j: u8 = 0;
        while j < self.k
            invariant
                self.wf(),
                key@.len() < 0x1_0000_0000,
                bits == self.array@.len() * 8,
                j <= self.k,
                h == probe_hash(key@, j as nat),
                delta == probe_delta(key@),
                forall|j2: nat|
                    j2 < j as nat ==> bit_set(
                        self.array@,
                        #[trigger] probe_pos(key@, j2, bits as nat),
                    ),
            decreases self.k - j,
        {
            let bitpos = (h as usize) % bits;
            if !get_bit(&self.array, bitpos) {
                proof {
                    assert(!bit_set(self.array@, probe_pos(key@, j as nat, bits as nat)));
                }
                return false;
            }
            h = h.wrapping_add(delta);
            j = j + 1;
        }
        true
    }

    /// Serializes the filter: 32-bit length of the bit array, the array,
    /// then the probe count.
    pub fn serialize(&self) -> (r: Vec<u8>)
        requires
            self.wf(),
        ensures
            r@ == bloom_bytes(self.spec_array(), self.spec_k()),
    {
        let mut out: Vec<u8> = Vec::new();
        put_u32_le(&mut out, self.array.len() as u32);
        let mut i: usize = 0;
        while i < self.array.len()
            invariant
                self.wf(),
                i <= self.array@.len(),
                out@ == le32(self.array@.len() as u32) + self.array@.subrange(0, i as int),
            decreases self.array@.len() - i,
        {
            out.push(self.array[i]);
            proof {
                assert(out@ =~= le32(self.array@.len() as u32) + self.array@.subrange(
                    0,
                    i + 1,
                ));
            }
            i = i + 1;
        }
        proof {
            assert(self.array@.subrange(0, self.array@.len() as int) =~= self.array@);
        }
        out.push(self.k);
        proof {
            assert(out@ =~= bloom_bytes(self.array@, self.k));
        }
        out
    }

    /// Reconstructs a filter from its serialized form; `None` on a truncated
    /// or malformed buffer. On any buffer `serialize` produced, it returns
    /// the filter back, so round-tripping preserves every `key_may_match`
    /// answer.
    #[verifier::rlimit(100)]
    pub fn deserialize(bytes: &Vec<u8>) -> (r: Option<BloomFilter>)
        ensures
            r matches Some(f) ==> f.wf() && bytes@ == bloom_bytes(f.spec_array(), f.spec_k()),
            forall|arr: Seq<u8>, k: u8|
                arr.len() >= 1 && arr.len() * 8 < 0x1_0000_0000 && k >= 1 && bytes@ == bloom_bytes(
                    arr,
                    k,
                ) ==> (r matches Some(f) && f.spec_array() == arr && f.spec_k() == k),
    {
        if bytes.len() < 6 {
            proof {
                assert forall|arr: Seq<u8>, k: u8|
                    arr.len() >= 1 && arr.len() * 8 < 0x1_0000_0000 && k >= 1 implies bytes@
                    != bloom_bytes(arr, k) by {
                    assert(bloom_bytes(arr, k).len() >= 6);
                }
            }
            return None;
        }
        let n = get_u32_le(bytes, 0);
        if n == 0 || n > 0x1fff_ffff || !(bytes.len() - 5 == n as usize) {
            proof {
                assert forall|arr: Seq<u8>, k: u8|
                    arr.len() >= 1 && arr.len() * 8 < 0x1_0000_0000 && k >= 1 && bytes@
                        == bloom_bytes(arr, k) implies false by {
                    lemma_le32_round_trip(arr.len() as u32);
                    assert(bytes@.subrange(0, 4) =~= le32(arr.len() as u32));
                    assert(n == arr.len());
                    assert(arr.len() <= 0x1fff_ffff);
                    assert(bytes@.len() == 4 + arr.len() + 1);
                }
            }
            return None;
        }
        let nn = n as usize;
        let mut array: Vec<u8> = Vec::new();
        let mut i: usize = 0;
        while i < nn
            invariant
                nn + 5 == bytes.len(),
                i <= nn,
                array@ == bytes@.subrange(4, 4 + i as int),
            decreases nn - i,
        {
            array.push(bytes[4 + i]);
            proof {
                assert(array@ =~= bytes@.subrange(4, 4 + (i + 1)));
            }
            i = i + 1;
        }
        let k = bytes[bytes.len() - 1];
        if k == 0 {
            proof {
                assert forall|arr: Seq<u8>, k2: u8|
                    arr.len() >= 1 && arr.len() * 8 < 0x1_0000_0000 && k2 >= 1 && bytes@
                        == bloom_bytes(arr, k2) implies false by {
                    assert(k2 == bytes@[bytes@.len() - 1]);
                }
            }
            return None;
        }
        let f = BloomFilter { k, array };
        proof {
            assert(bytes@ =~= bloom_bytes(f.array@, f.k));
            assert forall|arr: Seq<u8>, k2: u8|
                arr.len() >= 1 && arr.len() * 8 < 0x1_0000_0000 && k2 >= 1 && bytes@ == bloom_bytes(
                    arr,
                    k2,
                ) implies f.spec_array() == arr && f.spec_k() == k2 by {
                lemma_bloom_bytes_injective(arr, k2, f.array@, f.k);
            }
        }
        Some(f)
    }
}

} // verus!
