//! Immutable sorted-table format: prefix-compressed blocks with restart
//! points, each block snappy-compressed and checksummed; a table is a run of
//! data blocks, one Bloom filter per block, a filter offset table, an index
//! block keyed by each block's last key, and a fixed 16-byte footer.

use vstd::prelude::*;
use crate::codec::{le32, le32_val, varint, varint_parse, put_u32_le, get_u32_le, put_varint,
    get_varint, lemma_le32_round_trip, lemma_varint_len, lemma_varint_parse_encoding};
use crate::utils::{copy_bytes, append_from, append_range};
use crate::bloomfilter::{BloomFilter, bloom_bytes, all_probes_set, PROBES};

verus! {

/// Number of bytes a data block may grow to before it is cut.
pub const BLOCK_SIZE: usize = 4 * 1024;

/// Prefix compression resets every this many entries.
pub const BLOCK_RESTART_INTERVAL: usize = 16;

/// Compression-method tag for snappy, the only method written.
pub const COMPRESSION_SNAPPY: u8 = 1;

// ---------------------------------------------------------------------------
// Trusted view of the two outside computations
// ---------------------------------------------------------------------------

/// What snappy compression returns for a byte string; a pure function of the
/// input alone.
pub uninterp spec fn snappy_of(data: Seq<u8>) -> Seq<u8>;

/// The CRC-32 (Castagnoli) checksum of a byte string; a pure function of the
/// input alone.
pub uninterp spec fn crc32c_of(data: Seq<u8>) -> u32;

/// Relies on snap::raw::Encoder::compress_vec: deterministic snappy
/// compression, which succeeds whenever the worst-case compressed size
/// (32 + n + n/6 for n input bytes) still fits the format's 32-bit bound.
#[verifier::external_body]
fn snappy_compress(data: &Vec<u8>) -> (r: Vec<u8>)
    requires
        32 + data@.len() + data@.len() / 6 < 0x1_0000_0000,
    ensures
        r@ == snappy_of(data@),
{
    snap::raw::Encoder::new().compress_vec(data).expect("snappy compression")
}

/// Relies on snap::raw::Decoder::decompress_vec inverting
/// snap::raw::Encoder::compress_vec: decompressing a compressor output
/// returns exactly the bytes that were compressed.
#[verifier::external_body]
fn snappy_decompress(data: &Vec<u8>) -> (r: Option<Vec<u8>>)
    ensures
        forall|x: Seq<u8>| data@ == #[trigger] snappy_of(x) ==> (r is Some && r.unwrap()@ == x),
{
    snap::raw::Decoder::new().decompress_vec(data).ok()
}

/// Relies on crc::Crc::<u32>::checksum with the CRC_32_ISCSI (Castagnoli)
/// algorithm: a pure function of the bytes.
#[verifier::external_body]
fn crc32c(data: &Vec<u8>) -> (r: u32)
    ensures
        r == crc32c_of(data@),
{
    crc::Crc::<u32>::new(&crc::CRC_32_ISCSI).checksum(data)
}

// ---------------------------------------------------------------------------
// The block encoding, as spec functions
// ---------------------------------------------------------------------------

/// Length of the longest common prefix of two byte strings.
pub open spec fn lcp(a: Seq<u8>, b: Seq<u8>) -> nat
    decreases a.len(),
{
    if a.len() == 0 || b.len() == 0 || a[0] != b[0] {
        0
    } else {
        1 + lcp(a.subrange(1, a.len() as int), b.subrange(1, b.len() as int))
    }
}

/// The common prefix really is common, and no longer one is.
pub proof fn lemma_lcp_props(a: Seq<u8>, b: Seq<u8>)
    ensures
        lcp(a, b) <= a.len(),
        lcp(a, b) <= b.len(),
        forall|j: int| 0 <= j < lcp(a, b) ==> a[j] == b[j],
    decreases a.len(),
{
    if a.len() > 0 && b.len() > 0 && a[0] == b[0] {
        let a1 = a.subrange(1, a.len() as int);
        let b1 = b.subrange(1, b.len() as int);
        lemma_lcp_props(a1, b1);
        assert forall|j: int| 0 <= j < lcp(a, b) implies a[j] == b[j] by {
            if j >= 1 {
                assert(a1[j - 1] == a[j]);
                assert(b1[j - 1] == b[j]);
            }
        }
    }
}

/// `s` is the common-prefix length exactly when the first `s` bytes agree
/// and either one string ends there or the next bytes differ.
pub proof fn lemma_lcp_char(a: Seq<u8>, b: Seq<u8>, s: int)
    requires
        0 <= s <= a.len(),
        s <= b.len(),
        forall|j: int| 0 <= j < s ==> a[j] == b[j],
        s == a.len() || s == b.len() || a[s] != b[s],
    ensures
        lcp(a, b) == s,
    decreases s,
{
    if s == 0 {
    } else {
        let a1 = a.subrange(1, a.len() as int);
        let b1 = b.subrange(1, b.len() as int);
        assert forall|j: int| 0 <= j < s - 1 implies a1[j] == b1[j] by {
            assert(a[j + 1] == b[j + 1]);
        }
        if s - 1 < a1.len() && s - 1 < b1.len() {
            assert(a1[s - 1] == a[s] && b1[s - 1] == b[s]);
        }
        lemma_lcp_char(a1, b1, s - 1);
    }
}

/// The bytes one entry contributes to a block payload.
pub open spec fn entry_bytes(shared: nat, key: Seq<u8>, val: Seq<u8>) -> Seq<u8>
    recommends
        shared <= key.len(),
{
    varint(shared) + varint((key.len() - shared) as nat) + varint(val.len()) + key.skip(shared as int)
        + val
}

pub proof fn lemma_entry_bytes_min(shared: nat, key: Seq<u8>, val: Seq<u8>)
    ensures
        entry_bytes(shared, key, val).len() >= 3,
{
    lemma_varint_len(shared);
    lemma_varint_len((key.len() - shared) as nat);
    lemma_varint_len(val.len());
}

/// The shared-prefix count of entry `i`: zero on a restart, else the common
/// prefix with the previous key.
pub open spec fn shared_at(entries: Seq<(Seq<u8>, Seq<u8>)>, i: int, interval: int) -> nat
    recommends
        0 <= i < entries.len(),
        interval >= 1,
{
    if i % interval == 0 || i == 0 {
        0
    } else {
        lcp(entries[i - 1].0, entries[i].0)
    }
}

/// The payload bytes of the entries from position `i` on.
pub open spec fn payload_from(entries: Seq<(Seq<u8>, Seq<u8>)>, i: int, interval: int) -> Seq<u8>
    decreases entries.len() - i,
{
    if i < 0 || i >= entries.len() {
        Seq::empty()
    } else {
        entry_bytes(shared_at(entries, i, interval), entries[i].0, entries[i].1) + payload_from(
            entries,
            i + 1,
            interval,
        )
    }
}

/// The full prefix-compressed payload of a block's entries.
pub open spec fn payload(entries: Seq<(Seq<u8>, Seq<u8>)>, interval: int) -> Seq<u8> {
    payload_from(entries, 0, interval)
}

/// Appending one entry extends the payload by exactly its encoding.
pub proof fn lemma_payload_snoc(entries: Seq<(Seq<u8>, Seq<u8>)>, e: (Seq<u8>, Seq<u8>), i: int, interval: int)
    requires
        0 <= i <= entries.len(),
        interval >= 1,
    ensures
        payload_from(entries.push(e), i, interval) == payload_from(entries, i, interval)
            + entry_bytes(shared_at(entries.push(e), entries.len() as int, interval), e.0, e.1),
    decreases entries.len() - i,
{
    let e2 = entries.push(e);
    let n = entries.len() as int;
    if i == entries.len() {
        assert(e2[n] == e);
        assert(payload_from(e2, n, interval) =~= entry_bytes(shared_at(e2, n, interval), e.0, e.1)
            + payload_from(e2, n + 1, interval));
        assert(payload_from(e2, n + 1, interval) =~= Seq::<u8>::empty());
        assert(payload_from(entries, i, interval) =~= Seq::<u8>::empty());
        assert(payload_from(e2, i, interval) =~= payload_from(entries, i, interval) + entry_bytes(
            shared_at(e2, n, interval),
            e.0,
            e.1,
        ));
    } else {
        lemma_payload_snoc(entries, e, i + 1, interval);
        assert(e2[i] == entries[i]);
        assert(shared_at(e2, i, interval) == shared_at(entries, i, interval)) by {
            if !(i % interval == 0 || i == 0) {
                assert(e2[i - 1] == entries[i - 1]);
            }
        }
        assert(payload_from(e2, i, interval) =~= payload_from(entries, i, interval) + entry_bytes(
            shared_at(e2, n, interval),
            e.0,
            e.1,
        ));
    }
}


/// Appending one entry extends the restart list by at most one offset.
pub proof fn lemma_restarts_snoc(entries: Seq<(Seq<u8>, Seq<u8>)>, e: (Seq<u8>, Seq<u8>), i: int, interval: int)
    requires
        0 <= i <= entries.len(),
        interval >= 1,
    ensures
        restarts_spec(entries.push(e), i, interval) == (if entries.len() as int % interval == 0 {
            restarts_spec(entries, i, interval).push(payload(entries, interval).len() as int)
        } else {
            restarts_spec(entries, i, interval)
        }),
    decreases entries.len() - i,
{
    let e2 = entries.push(e);
    let n = entries.len() as int;
    lemma_payload_snoc(entries, e, i, interval);
    if i == entries.len() {
        assert(restarts_spec(entries, i, interval) =~= Seq::<int>::empty());
        if n % interval == 0 {
            assert(restarts_spec(e2, n + 1, interval) =~= Seq::<int>::empty());
            lemma_payload_snoc(entries, e, 0, interval);
            assert(payload_from(e2, 0, interval).len() - payload_from(e2, n, interval).len()
                == payload(entries, interval).len());
            assert(restarts_spec(e2, i, interval) =~= restarts_spec(
                entries,
                i,
                interval,
            ).push(payload(entries, interval).len() as int));
        } else {
            assert(restarts_spec(e2, n + 1, interval) =~= Seq::<int>::empty());
            assert(restarts_spec(e2, i, interval) =~= restarts_spec(entries, i, interval));
        }
    } else {
        lemma_restarts_snoc(entries, e, i + 1, interval);
        assert(e2[i] == entries[i]);
        lemma_payload_snoc(entries, e, 0, interval);
        assert(payload_from(e2, 0, interval).len() - payload_from(e2, i, interval).len()
            == payload_from(entries, 0, interval).len() - payload_from(entries, i, interval).len());
        if n % interval == 0 {
            assert(restarts_spec(e2, i, interval) =~= restarts_spec(
                entries,
                i,
                interval,
            ).push(payload(entries, interval).len() as int));
        } else {
            assert(restarts_spec(e2, i, interval) =~= restarts_spec(entries, i, interval));
        }
    }
}

/// The restart offsets of a block: the payload offset of every entry whose
/// position is a multiple of the interval.
pub open spec fn restarts_spec(entries: Seq<(Seq<u8>, Seq<u8>)>, i: int, interval: int) -> Seq<int>
    decreases entries.len() - i,
{
    if i < 0 || i >= entries.len() {
        Seq::empty()
    } else {
        let rest = restarts_spec(entries, i + 1, interval);
        if i % interval == 0 {
            seq![payload_from(entries, 0, interval).len() - payload_from(entries, i, interval).len()]
                + rest
        } else {
            rest
        }
    }
}

/// The trailer of a raw block: each restart offset as four bytes, then the
/// restart count.
pub open spec fn restart_bytes(rs: Seq<int>) -> Seq<u8>
    decreases rs.len(),
{
    if rs.len() == 0 {
        Seq::empty()
    } else {
        restart_bytes(rs.drop_last()) + le32(rs.last() as u32)
    }
}

pub proof fn lemma_restart_bytes_len(rs: Seq<int>)
    ensures
        restart_bytes(rs).len() == 4 * rs.len(),
    decreases rs.len(),
{
    if rs.len() > 0 {
        lemma_restart_bytes_len(rs.drop_last());
    }
}

/// A raw (uncompressed) block: payload, restart offsets, restart count.
pub open spec fn raw_block(entries: Seq<(Seq<u8>, Seq<u8>)>, interval: int) -> Seq<u8> {
    payload(entries, interval) + restart_bytes(restarts_spec(entries, 0, interval)) + le32(
        restarts_spec(entries, 0, interval).len() as u32,
    )
}

/// A finalized block: the raw block compressed, a one-byte method tag, and a
/// checksum over the compressed bytes plus the tag.
pub open spec fn block_bytes(entries: Seq<(Seq<u8>, Seq<u8>)>, interval: int) -> Seq<u8> {
    let comp = snappy_of(raw_block(entries, interval)) + seq![COMPRESSION_SNAPPY];
    comp + le32(crc32c_of(comp))
}


// ---------------------------------------------------------------------------
// Block builder
// ---------------------------------------------------------------------------

/// Accumulates sorted key/value pairs into one prefix-compressed block.
pub struct BlockBuilder {
    buffer: Vec<u8>,
    count: usize,
    restart_interval: usize,
    restarts: Vec<u32>,
    last_key: Vec<u8>,
    entries: Ghost<Seq<(Seq<u8>, Seq<u8>)>>,
}

impl BlockBuilder {
    /// The entries added since the last reset.
    pub closed spec fn spec_entries(&self) -> Seq<(Seq<u8>, Seq<u8>)> {
        self.entries@
    }

    pub closed spec fn spec_interval(&self) -> int {
        self.restart_interval as int
    }

    /// Structural invariant: buffer and restart list are exactly the
    /// encoding of the entries so far, and sizes stay within the format's
    /// 32-bit offsets.
    pub closed spec fn wf(&self) -> bool {
        &&& self.restart_interval >= 1
        &&& self.count == self.entries@.len()
        &&& self.buffer@ == payload(self.entries@, self.restart_interval as int)
        &&& self.restarts@.map_values(|x: u32| x as int) == restarts_spec(
            self.entries@,
            0,
            self.restart_interval as int,
        )
        &&& (self.entries@.len() == 0 ==> self.last_key@.len() == 0)
        &&& (self.entries@.len() > 0 ==> self.last_key@ == self.entries@.last().0)
        &&& self.restarts@.len() <= self.count
        &&& 3 * self.count <= self.buffer@.len()
        &&& self.buffer@.len() < 0x2000_0000
    }

    pub fn new(restart_interval: usize) -> (r: BlockBuilder)
        requires
            restart_interval >= 1,
        ensures
            r.wf(),
            r.spec_entries() == Seq::<(Seq<u8>, Seq<u8>)>::empty(),
            r.spec_interval() == restart_interval,
            r.spec_buffer_len() == 0,
            r.spec_restart_count() == 0,
    {
        let r = BlockBuilder {
            buffer: Vec::new(),
            count: 0,
            restart_interval,
            restarts: Vec::new(),
            last_key: Vec::new(),
            entries: Ghost(Seq::empty()),
        };
        proof {
            assert(r.buffer@ =~= payload(r.entries@, restart_interval as int));
            assert(r.restarts@.map_values(|x: u32| x as int) =~= restarts_spec(
                r.entries@,
                0,
                restart_interval as int,
            ));
        }
        r
    }

    /// An estimate of the finalized size: payload bytes plus four bytes per
    /// pending restart point. Used as a flush-threshold heuristic.
    pub fn size(&self) -> (r: usize)
        requires
            self.wf(),
        ensures
            r == self.spec_buffer_len() + 4 * self.spec_restart_count(),
    {
        self.buffer.len() + 4 * self.restarts.len()
    }

    pub closed spec fn spec_buffer_len(&self) -> int {
        self.buffer@.len() as int
    }

    pub closed spec fn spec_restart_count(&self) -> int {
        self.restarts@.len() as int
    }

    /// Appends one entry. Keys must arrive in non-decreasing order, and the
    /// block must stay within the format's 32-bit budget.
    #[verifier::loop_isolation(false)]
    pub fn add(&mut self, key: &Vec<u8>, val: &Vec<u8>)
        requires
            old(self).wf(),
            old(self).spec_buffer_len() + key@.len() + val@.len() + 20 < 0x2000_0000,
        ensures
            final(self).wf(),
            final(self).spec_entries() == old(self).spec_entries().push((key@, val@)),
            final(self).spec_interval() == old(self).spec_interval(),
            old(self).spec_buffer_len() + 3 <= final(self).spec_buffer_len() <= old(
                self,
            ).spec_buffer_len() + 15 + key@.len() + val@.len(),
            final(self).spec_restart_count() <= old(self).spec_restart_count() + 1,
    {
        let ghost entries0 = self.entries@;
        let ghost iv = self.restart_interval as int;
        let ghost n = entries0.len() as int;
        let ghost entries2 = entries0.push((key@, val@));
        proof {
            lemma_payload_snoc(entries0, (key@, val@), 0, iv);
            lemma_restarts_snoc(entries0, (key@, val@), 0, iv);
        }
        let mut shared: usize = 0;
        if self.count % self.restart_interval == 0 {
            self.restarts.push(self.buffer.len() as u32);
            self.last_key.clear();
            proof {
                assert(shared_at(entries2, n, iv) == 0);
                assert(self.restarts@.map_values(|x: u32| x as int) =~= restarts_spec(
                    entries0,
                    0,
                    iv,
                ).push(payload(entries0, iv).len() as int));
            }
        } else {
            let min_len = if self.last_key.len() < key.len() {
                self.last_key.len()
            } else {
                key.len()
            };
            while shared < min_len && self.last_key[shared] == key[shared]
                invariant
                    shared <= min_len,
                    forall|j: int| 0 <= j < shared ==> self.last_key@[j] == key@[j],
                decreases min_len - shared,
            {
                shared = shared + 1;
            }
            proof {
                lemma_lcp_char(self.last_key@, key@, shared as int);
                assert(shared_at(entries2, n, iv) == shared);
            }
        }
        let ghost sh = shared as nat;
        put_varint(&mut self.buffer, shared as u32);
        put_varint(&mut self.buffer, (key.len() - shared) as u32);
        put_varint(&mut self.buffer, val.len() as u32);
        append_from(&mut self.buffer, key, shared);
        append_from(&mut self.buffer, val, 0);
        self.last_key = copy_bytes(key);
        proof {
            assert(self.count < 0x1000_0000);
        }
        self.count = self.count + 1;
        proof {
            self.entries@ = entries2;
            assert(val@.subrange(0, val@.len() as int) =~= val@);
            assert(key@.subrange(shared as int, key@.len() as int) =~= key@.skip(shared as int));
            assert(self.buffer@ =~= payload(entries0, iv) + entry_bytes(sh, key@, val@));
            assert(self.buffer@ == payload(entries2, iv));
            lemma_entry_bytes_min(sh, key@, val@);
            lemma_varint_len(sh);
            lemma_varint_len((key@.len() - sh) as nat);
            lemma_varint_len(val@.len());
            assert(entry_bytes(sh, key@, val@).len() <= 15 + key@.len() + val@.len());
            assert(self.buffer@.len() < 0x2000_0000);
            assert(3 * self.count <= self.buffer@.len());
        }
    }

    /// The finalized bytes of the block as it stands: restart offsets and
    /// their count appended, compressed, tagged, and checksummed.
    #[verifier::loop_isolation(false)]
    pub fn encode(&self) -> (r: Vec<u8>)
        requires
            self.wf(),
        ensures
            r@ == block_bytes(self.spec_entries(), self.spec_interval()),
            r@.len() >= 5,
            raw_block(self.spec_entries(), self.spec_interval()).len() < 0x1_0000_0000,
    {
        let ghost entries0 = self.entries@;
        let ghost iv = self.restart_interval as int;
        let ghost rs = restarts_spec(entries0, 0, iv);
        let mut raw = copy_bytes(&self.buffer);
        let mut i: usize = 0;
        while i < self.restarts.len()
            invariant
                i <= self.restarts@.len(),
                raw@ == payload(entries0, iv) + restart_bytes(rs.take(i as int)),
            decreases self.restarts@.len() - i,
        {
            let x = self.restarts[i];
            put_u32_le(&mut raw, x);
            proof {
                assert(rs.take(i + 1).drop_last() =~= rs.take(i as int));
                assert(rs.take(i + 1).last() == rs[i as int]);
                assert(rs[i as int] == x as int);
                assert(restart_bytes(rs.take(i + 1)) == restart_bytes(rs.take(i as int)) + le32(
                    (rs[i as int]) as u32,
                ));
                assert((rs[i as int]) as u32 == x);
                assert(raw@ =~= payload(entries0, iv) + restart_bytes(rs.take(i + 1)));
            }
            i = i + 1;
        }
        proof {
            assert(rs.take(rs.len() as int) =~= rs);
        }
        let cnt = self.restarts.len() as u32;
        put_u32_le(&mut raw, cnt);
        proof {
            assert(raw@ =~= raw_block(entries0, iv));
            lemma_restart_bytes_len(rs);
            assert(rs.len() == self.restarts@.len());
            assert(raw@.len() <= payload(entries0, iv).len() + 4 * rs.len() + 4);
            assert(raw@.len() < 0x1_0000_0000);
        }
        let mut out = snappy_compress(&raw);
        out.push(COMPRESSION_SNAPPY);
        proof {
            assert(out@ =~= snappy_of(raw_block(entries0, iv)) + seq![COMPRESSION_SNAPPY]);
        }
        let c = crc32c(&out);
        put_u32_le(&mut out, c);
        proof {
            assert(out@ =~= block_bytes(entries0, iv));
        }
        out
    }

    /// Empties the builder for reuse, keeping its restart interval.
    pub fn reset(&mut self)
        requires
            old(self).wf(),
        ensures
            final(self).wf(),
            final(self).spec_entries() == Seq::<(Seq<u8>, Seq<u8>)>::empty(),
            final(self).spec_interval() == old(self).spec_interval(),
            final(self).spec_buffer_len() == 0,
            final(self).spec_restart_count() == 0,
    {
        self.buffer = Vec::new();
        self.count = 0;
        self.restarts = Vec::new();
        self.last_key = Vec::new();
        proof {
            self.entries@ = Seq::empty();
            assert(self.buffer@ =~= payload(self.entries@, self.restart_interval as int));
            assert(self.restarts@.map_values(|x: u32| x as int) =~= restarts_spec(
                self.entries@,
                0,
                self.restart_interval as int,
            ));
        }
    }

    /// Finalizes the block and resets the builder to empty, ready for reuse.
    pub fn done(&mut self) -> (r: Vec<u8>)
        requires
            old(self).wf(),
        ensures
            final(self).wf(),
            final(self).spec_entries() == Seq::<(Seq<u8>, Seq<u8>)>::empty(),
            final(self).spec_interval() == old(self).spec_interval(),
            final(self).spec_buffer_len() == 0,
            final(self).spec_restart_count() == 0,
            r@ == block_bytes(old(self).spec_entries(), old(self).spec_interval()),
            r@.len() >= 5,
            raw_block(old(self).spec_entries(), old(self).spec_interval()).len() < 0x1_0000_0000,
    {
        let out = self.encode();
        self.reset();
        out
    }
}


// ---------------------------------------------------------------------------
// Block decoding
// ---------------------------------------------------------------------------

/// Every key and value is small enough for the 32-bit length encoding.
pub open spec fn entries_fit(entries: Seq<(Seq<u8>, Seq<u8>)>) -> bool {
    forall|j: int|
        0 <= j < entries.len() ==> (#[trigger] entries[j]).0.len() < 0x1_0000_0000
            && entries[j].1.len() < 0x1_0000_0000
}

/// What a parser finds at position `pos` of a buffer whose tail is the
/// payload of the entries from `i` on: the three lengths, the key suffix and
/// the value, ending exactly at the remaining payload.
#[verifier::rlimit(100)]
pub proof fn lemma_payload_parse_step(
    entries: Seq<(Seq<u8>, Seq<u8>)>,
    i: int,
    interval: int,
    data: Seq<u8>,
    pos: int,
)
    requires
        interval >= 1,
        0 <= i < entries.len(),
        0 <= pos <= data.len(),
        data.subrange(pos, data.len() as int) == payload_from(entries, i, interval),
        entries[i].0.len() < 0x1_0000_0000,
        entries[i].1.len() < 0x1_0000_0000,
    ensures
        ({
            let sh = shared_at(entries, i, interval);
            let key = entries[i].0;
            let val = entries[i].1;
            let ns = (key.len() - sh) as nat;
            let p1 = pos + varint(sh).len();
            let p2 = p1 + varint(ns).len();
            let p3 = p2 + varint(val.len()).len();
            &&& sh <= key.len()
            &&& varint_parse(data, pos, 5) == Some((sh, p1))
            &&& varint_parse(data, p1, 5) == Some((ns, p2))
            &&& varint_parse(data, p2, 5) == Some((val.len(), p3))
            &&& p3 + ns + val.len() <= data.len()
            &&& data.subrange(p3, p3 + ns) == key.skip(sh as int)
            &&& data.subrange(p3 + ns, p3 + ns + val.len()) == val
            &&& data.subrange(p3 + ns + val.len(), data.len() as int) == payload_from(
                entries,
                i + 1,
                interval,
            )
            &&& (i > 0 && !(i % interval == 0) ==> sh <= entries[i - 1].0.len() && key.take(
                sh as int,
            ) == entries[i - 1].0.take(sh as int))
        }),
{
    let sh = shared_at(entries, i, interval);
    let key = entries[i].0;
    let val = entries[i].1;
    if i > 0 && !(i % interval == 0) {
        lemma_lcp_props(entries[i - 1].0, key);
        assert(key.take(sh as int) =~= entries[i - 1].0.take(sh as int));
    }
    assert(sh <= key.len());
    let ns = (key.len() - sh) as nat;
    let a = varint(sh);
    let b = varint(ns);
    let c = varint(val.len());
    let d = key.skip(sh as int);
    let r = payload_from(entries, i + 1, interval);
    let tail = payload_from(entries, i, interval);
    assert(tail =~= a + b + c + d + val + r);
    lemma_varint_len(sh);
    lemma_varint_len(ns);
    lemma_varint_len(val.len());
    let p1 = pos + a.len();
    let p2 = p1 + b.len();
    let p3 = p2 + c.len();
    assert forall|k: int| 0 <= k < tail.len() implies #[trigger] data[pos + k] == tail[k] by {
        assert(data.subrange(pos, data.len() as int)[k] == tail[k]);
    }
    assert(pos + tail.len() == data.len());
    assert forall|k: int| 0 <= k < b.len() implies tail[a.len() + k] == b[k] by {
        assert((a + b)[a.len() + k] == b[k]);
        assert(((a + b) + c)[a.len() + k] == (a + b)[a.len() + k]);
        assert((((a + b) + c) + d)[a.len() + k] == ((a + b) + c)[a.len() + k]);
        assert(((((a + b) + c) + d) + val)[a.len() + k] == (((a + b) + c) + d)[a.len() + k]);
        assert(tail[a.len() + k] == ((((a + b) + c) + d) + val)[a.len() + k]);
    }
    assert forall|k: int| 0 <= k < c.len() implies tail[a.len() + b.len() + k] == c[k] by {
        let x = a.len() + b.len() + k;
        assert(((a + b) + c)[x] == c[k]);
        assert((((a + b) + c) + d)[x] == ((a + b) + c)[x]);
        assert(((((a + b) + c) + d) + val)[x] == (((a + b) + c) + d)[x]);
        assert(tail[x] == ((((a + b) + c) + d) + val)[x]);
    }
    assert forall|k: int| 0 <= k < d.len() implies tail[a.len() + b.len() + c.len() + k] == d[k] by {
        let x = a.len() + b.len() + c.len() + k;
        assert((((a + b) + c) + d)[x] == d[k]);
        assert(((((a + b) + c) + d) + val)[x] == (((a + b) + c) + d)[x]);
        assert(tail[x] == ((((a + b) + c) + d) + val)[x]);
    }
    assert forall|k: int| 0 <= k < val.len() implies tail[a.len() + b.len() + c.len() + d.len() + k]
        == val[k] by {
        let x = a.len() + b.len() + c.len() + d.len() + k;
        assert(((((a + b) + c) + d) + val)[x] == val[k]);
        assert(tail[x] == ((((a + b) + c) + d) + val)[x]);
    }
    assert forall|k: int| 0 <= k < r.len() implies tail[a.len() + b.len() + c.len() + d.len()
        + val.len() + k] == r[k] by {
        let x = a.len() + b.len() + c.len() + d.len() + val.len() + k;
        assert(tail[x] == r[k]);
    }
    assert(data.subrange(pos, pos + a.len() as int) =~= a);
    assert(data.subrange(p1, p1 + b.len() as int) =~= b);
    assert(data.subrange(p2, p2 + c.len() as int) =~= c);
    lemma_varint_parse_encoding(data, pos, 5, sh);
    lemma_varint_parse_encoding(data, p1, 5, ns);
    lemma_varint_parse_encoding(data, p2, 5, val.len());
    assert(data.subrange(p3, p3 + ns) =~= d);
    assert(data.subrange(p3 + ns, p3 + ns + val.len()) =~= val);
    assert(data.subrange(p3 + ns + val.len(), data.len() as int) =~= r);
}

/// Replays the shared/non-shared prefix encoding of a block payload in
/// order, reconstructing every entry; `None` on any malformed input. On the
/// payload of any entry sequence it returns exactly those entries: together
/// with `BlockBuilder::done` and `Block::load` this is the round-trip law at
/// block level.
#[verifier::loop_isolation(false)]
#[verifier::rlimit(100)]
pub fn decode_entries(data: &Vec<u8>) -> (r: Option<Vec<(Vec<u8>, Vec<u8>)>>)
    ensures
        forall|e: Seq<(Seq<u8>, Seq<u8>)>, iv: int|
            1 <= iv && entries_fit(e) && data@ == payload(e, iv) ==> (r matches Some(out)
                && out@.len() == e.len() && (forall|k: int|
                0 <= k < e.len() ==> (#[trigger] out@[k]).0@ == e[k].0 && out@[k].1@ == e[k].1)),
{
    let mut out: Vec<(Vec<u8>, Vec<u8>)> = Vec::new();
    let mut last_key: Vec<u8> = Vec::new();
    let mut pos: usize = 0;
    while pos < data.len()
        invariant
            pos <= data@.len(),
            out@.len() == 0 ==> pos == 0 && last_key@.len() == 0,
            forall|e: Seq<(Seq<u8>, Seq<u8>)>, iv: int|
                1 <= iv && entries_fit(e) && data@ == payload(e, iv) ==> {
                    let i = out@.len() as int;
                    &&& i <= e.len()
                    &&& data@.subrange(pos as int, data@.len() as int) == payload_from(e, i, iv)
                    &&& (forall|k: int|
                        0 <= k < i ==> (#[trigger] out@[k]).0@ == e[k].0 && out@[k].1@ == e[k].1)
                    &&& (i > 0 ==> last_key@ == e[i - 1].0)
                },
        decreases data@.len() - pos,
    {
        let ghost out0 = out@;
        let ghost pos0 = pos as int;
        let ghost lk0 = last_key@;
        proof {
            assert forall|e: Seq<(Seq<u8>, Seq<u8>)>, iv: int|
                1 <= iv && entries_fit(e) && data@ == payload(e, iv) implies out0.len() < e.len() by {
                if out0.len() >= e.len() {
                    assert(payload_from(e, out0.len() as int, iv) =~= Seq::<u8>::empty());
                }
            }
        }
        let sh_parse = get_varint(data, pos);
        let (shared, p1) = match sh_parse {
            Some(x) => x,
            None => {
                proof {
                    assert forall|e: Seq<(Seq<u8>, Seq<u8>)>, iv: int|
                        1 <= iv && entries_fit(e) && data@ == payload(e, iv) implies false by {
                        lemma_payload_parse_step(e, out0.len() as int, iv, data@, pos0);
                    }
                }
                return None;
            },
        };
        let ns_parse = get_varint(data, p1);
        let (non_shared, p2) = match ns_parse {
            Some(x) => x,
            None => {
                proof {
                    assert forall|e: Seq<(Seq<u8>, Seq<u8>)>, iv: int|
                        1 <= iv && entries_fit(e) && data@ == payload(e, iv) implies false by {
                        lemma_payload_parse_step(e, out0.len() as int, iv, data@, pos0);
                    }
                }
                return None;
            },
        };
        let vl_parse = get_varint(data, p2);
        let (val_len, p3) = match vl_parse {
            Some(x) => x,
            None => {
                proof {
                    assert forall|e: Seq<(Seq<u8>, Seq<u8>)>, iv: int|
                        1 <= iv && entries_fit(e) && data@ == payload(e, iv) implies false by {
                        lemma_payload_parse_step(e, out0.len() as int, iv, data@, pos0);
                    }
                }
                return None;
            },
        };
        let fits = shared as u64 <= last_key.len() as u64 && non_shared as u64 + val_len as u64
            <= (data.len() - p3) as u64;
        if !fits {
            proof {
                assert forall|e: Seq<(Seq<u8>, Seq<u8>)>, iv: int|
                    1 <= iv && entries_fit(e) && data@ == payload(e, iv) implies false by {
                    lemma_payload_parse_step(e, out0.len() as int, iv, data@, pos0);
                    let i = out0.len() as int;
                    if i == 0 || i % iv == 0 {
                        assert(shared_at(e, i, iv) == 0);
                    }
                }
            }
            return None;
        }
        let kend = p3 + non_shared as usize;
        let vend = kend + val_len as usize;
        let mut key_vec: Vec<u8> = Vec::new();
        append_range(&mut key_vec, &last_key, 0, shared as usize);
        append_range(&mut key_vec, data, p3, kend);
        let mut val_vec: Vec<u8> = Vec::new();
        append_range(&mut val_vec, data, kend, vend);
        proof {
            assert(key_vec@ =~= lk0.subrange(0, shared as int) + data@.subrange(
                p3 as int,
                kend as int,
            ));
        }
        last_key = copy_bytes(&key_vec);
        out.push((key_vec, val_vec));
        pos = vend;
        proof {
            assert forall|e: Seq<(Seq<u8>, Seq<u8>)>, iv: int|
                1 <= iv && entries_fit(e) && data@ == payload(e, iv) implies {
                let i = out@.len() as int;
                &&& i <= e.len()
                &&& data@.subrange(pos as int, data@.len() as int) == payload_from(e, i, iv)
                &&& (forall|k: int|
                    0 <= k < i ==> (#[trigger] out@[k]).0@ == e[k].0 && out@[k].1@ == e[k].1)
                &&& (i > 0 ==> last_key@ == e[i - 1].0)
            } by {
                let i0 = out0.len() as int;
                lemma_payload_parse_step(e, i0, iv, data@, pos0);
                let sh = shared_at(e, i0, iv);
                assert(sh == shared as nat);
                assert((e[i0].0.len() - sh) as nat == non_shared as nat);
                assert(e[i0].1.len() == val_len as nat);
                assert(out@[i0].0@ == e[i0].0) by {
                    if i0 == 0 || i0 % iv == 0 {
                        assert(sh == 0);
                        assert(key_vec@ =~= e[i0].0.skip(0));
                        assert(e[i0].0.skip(0) =~= e[i0].0);
                    } else {
                        assert(lk0 == e[i0 - 1].0);
                        assert(lk0.subrange(0, sh as int) == e[i0].0.take(sh as int));
                        assert(key_vec@ =~= e[i0].0.take(sh as int) + e[i0].0.skip(sh as int));
                        assert(e[i0].0.take(sh as int) + e[i0].0.skip(sh as int) =~= e[i0].0);
                    }
                }
                assert(out@[i0].1@ == e[i0].1);
                assert forall|k: int|
                    0 <= k < out@.len() implies (#[trigger] out@[k]).0@ == e[k].0 && out@[k].1@
                    == e[k].1 by {
                    if k < i0 {
                        assert(out@[k] == out0[k]);
                    }
                }
            }
        }
    }
    proof {
        assert forall|e: Seq<(Seq<u8>, Seq<u8>)>, iv: int|
            1 <= iv && entries_fit(e) && data@ == payload(e, iv) implies out@.len() == e.len() by {
            let i = out@.len() as int;
            if i < e.len() {
                lemma_entry_bytes_min(shared_at(e, i, iv), e[i].0, e[i].1);
                assert(payload_from(e, i, iv).len() >= 3);
            }
        }
    }
    Some(out)
}


/// Restart offsets are positions within the payload.
pub proof fn lemma_restarts_values(entries: Seq<(Seq<u8>, Seq<u8>)>, i: int, interval: int)
    requires
        0 <= i,
        interval >= 1,
    ensures
        forall|j: int|
            0 <= j < restarts_spec(entries, i, interval).len() ==> 0 <= #[trigger] restarts_spec(
                entries,
                i,
                interval,
            )[j] <= payload(entries, interval).len(),
    decreases entries.len() - i,
{
    if i < entries.len() {
        lemma_restarts_values(entries, i + 1, interval);
        lemma_payload_prefix(entries, i, interval);
        assert forall|j: int|
            0 <= j < restarts_spec(entries, i, interval).len() implies 0 <= #[trigger] restarts_spec(
            entries,
            i,
            interval,
        )[j] <= payload(entries, interval).len() by {
            let rs = restarts_spec(entries, i, interval);
            let rest = restarts_spec(entries, i + 1, interval);
            if i % interval == 0 {
                if j > 0 {
                    assert(rs[j] == rest[j - 1]);
                }
            } else {
                assert(rs[j] == rest[j]);
            }
        }
    }
}

/// The payload suffix from `i` is no longer than the whole payload.
pub proof fn lemma_payload_prefix(entries: Seq<(Seq<u8>, Seq<u8>)>, i: int, interval: int)
    requires
        0 <= i,
        interval >= 1,
    ensures
        payload_from(entries, i, interval).len() <= payload(entries, interval).len(),
    decreases i,
{
    if i > 0 {
        lemma_payload_prefix(entries, i - 1, interval);
        if i - 1 < entries.len() {
            assert(payload_from(entries, i - 1, interval) == entry_bytes(
                shared_at(entries, i - 1, interval),
                entries[i - 1].0,
                entries[i - 1].1,
            ) + payload_from(entries, i, interval));
        } else {
            assert(payload_from(entries, i, interval) =~= Seq::<u8>::empty());
        }
    }
}

/// The `j`-th four-byte chunk of the restart trailer encodes the `j`-th
/// offset.
pub proof fn lemma_restart_bytes_index(rs: Seq<int>, j: int)
    requires
        0 <= j < rs.len(),
    ensures
        restart_bytes(rs).subrange(4 * j, 4 * j + 4) == le32(rs[j] as u32),
    decreases rs.len(),
{
    lemma_restart_bytes_len(rs);
    lemma_restart_bytes_len(rs.drop_last());
    if j == rs.len() - 1 {
        assert(restart_bytes(rs).subrange(4 * j, 4 * j + 4) =~= le32(rs.last() as u32));
    } else {
        lemma_restart_bytes_index(rs.drop_last(), j);
        assert(restart_bytes(rs).subrange(4 * j, 4 * j + 4) =~= restart_bytes(
            rs.drop_last(),
        ).subrange(4 * j, 4 * j + 4));
        assert(rs.drop_last()[j] == rs[j]);
    }
}

/// Structure of a raw block: where the payload ends, what the trailer holds.
pub proof fn block_trailer_facts(entries: Seq<(Seq<u8>, Seq<u8>)>, iv: int, data: Seq<u8>)
    requires
        1 <= iv,
        data == raw_block(entries, iv),
        data.len() < 0x1_0000_0000,
    ensures
        ({
            let pl = payload(entries, iv);
            let rs = restarts_spec(entries, 0, iv);
            &&& data.len() == pl.len() + 4 * rs.len() + 4
            &&& rs.len() < 0x4000_0000
            &&& le32_val(data.subrange(data.len() - 4, data.len() as int)) == rs.len()
            &&& forall|j: int|
                0 <= j < rs.len() ==> data.subrange(pl.len() + 4 * j, pl.len() + 4 * j + 4)
                    == le32(#[trigger] rs[j] as u32) && 0 <= rs[j] < 0x1_0000_0000
        }),
{
    let pl = payload(entries, iv);
    let rs = restarts_spec(entries, 0, iv);
    lemma_restart_bytes_len(rs);
    lemma_le32_round_trip(rs.len() as u32);
    assert(data.subrange(data.len() - 4, data.len() as int) =~= le32(rs.len() as u32));
    lemma_restarts_values(entries, 0, iv);
    assert forall|j: int| 0 <= j < rs.len() implies data.subrange(
        pl.len() + 4 * j,
        pl.len() + 4 * j + 4,
    ) == le32(#[trigger] rs[j] as u32) && 0 <= rs[j] < 0x1_0000_0000 by {
        lemma_restart_bytes_index(rs, j);
        assert(data.subrange(pl.len() + 4 * j, pl.len() + 4 * j + 4) =~= restart_bytes(
            rs,
        ).subrange(4 * j, 4 * j + 4));
    }
}

/// A checksum-verified, decompressed block: its payload bytes and restart
/// offsets.
pub struct Block {
    pub data: Vec<u8>,
    pub restarts: Vec<u32>,
}

impl Block {
    /// Verifies the trailing checksum, checks the compression tag,
    /// decompresses, and strips the restart trailer. Corruption — any byte
    /// buffer whose checksummed region does not match its stored checksum —
    /// is reported as `None`, never silently accepted; on any buffer
    /// `BlockBuilder::done` produced, it recovers that block's payload and
    /// restart offsets.
    #[verifier::loop_isolation(false)]
    #[verifier::rlimit(100)]
    pub fn load(raw: &Vec<u8>) -> (r: Option<Block>)
        ensures
            raw@.len() < 5 ==> r is None,
            r is Some ==> raw@.len() >= 5 && crc32c_of(raw@.subrange(0, raw@.len() - 4))
                == le32_val(raw@.subrange(raw@.len() - 4, raw@.len() as int)),
            r is Some ==> raw@[raw@.len() - 5] == COMPRESSION_SNAPPY,
            forall|e: Seq<(Seq<u8>, Seq<u8>)>, iv: int|
                1 <= iv && raw_block(e, iv).len() < 0x1_0000_0000 && raw@ == block_bytes(e, iv)
                    ==> (r matches Some(b) && b.data@ == payload(e, iv)
                    && b.restarts@.map_values(|x: u32| x as int) == restarts_spec(e, 0, iv)),
    {
        let n = raw.len();
        if n < 5 {
            proof {
                assert forall|e: Seq<(Seq<u8>, Seq<u8>)>, iv: int|
                    1 <= iv && raw_block(e, iv).len() < 0x1_0000_0000 && raw@ == block_bytes(
                        e,
                        iv,
                    ) implies false by {
                    assert(raw@.len() >= 5);
                }
            }
            return None;
        }
        let stored = get_u32_le(raw, n - 4);
        let mut region: Vec<u8> = Vec::new();
        append_range(&mut region, raw, 0, n - 4);
        let c = crc32c(&region);
        if c != stored {
            proof {
                assert forall|e: Seq<(Seq<u8>, Seq<u8>)>, iv: int|
                    1 <= iv && raw_block(e, iv).len() < 0x1_0000_0000 && raw@ == block_bytes(
                        e,
                        iv,
                    ) implies false by {
                    let comp = snappy_of(raw_block(e, iv)) + seq![COMPRESSION_SNAPPY];
                    assert(region@ =~= comp);
                    lemma_le32_round_trip(crc32c_of(comp));
                    assert(raw@.subrange(n - 4, n as int) =~= le32(crc32c_of(comp)));
                }
            }
            return None;
        }
        let tag = raw[n - 5];
        if tag != COMPRESSION_SNAPPY {
            proof {
                assert forall|e: Seq<(Seq<u8>, Seq<u8>)>, iv: int|
                    1 <= iv && raw_block(e, iv).len() < 0x1_0000_0000 && raw@ == block_bytes(
                        e,
                        iv,
                    ) implies false by {
                    let comp = snappy_of(raw_block(e, iv)) + seq![COMPRESSION_SNAPPY];
                    assert(raw@[n - 5] == comp[comp.len() - 1]);
                }
            }
            return None;
        }
        let mut compressed: Vec<u8> = Vec::new();
        append_range(&mut compressed, raw, 0, n - 5);
        let data_opt = snappy_decompress(&compressed);
        let mut data = match data_opt {
            Some(d) => d,
            None => {
                proof {
                    assert forall|e: Seq<(Seq<u8>, Seq<u8>)>, iv: int|
                        1 <= iv && raw_block(e, iv).len() < 0x1_0000_0000 && raw@ == block_bytes(
                            e,
                            iv,
                        ) implies false by {
                        assert(compressed@ =~= snappy_of(raw_block(e, iv)));
                    }
                }
                return None;
            },
        };
        proof {
            assert forall|e: Seq<(Seq<u8>, Seq<u8>)>, iv: int|
                1 <= iv && raw_block(e, iv).len() < 0x1_0000_0000 && raw@ == block_bytes(
                    e,
                    iv,
                ) implies data@ == raw_block(e, iv) by {
                assert(compressed@ =~= snappy_of(raw_block(e, iv)));
            }
        }
        let dlen = data.len();
        if dlen < 4 {
            proof {
                assert forall|e: Seq<(Seq<u8>, Seq<u8>)>, iv: int|
                    1 <= iv && raw_block(e, iv).len() < 0x1_0000_0000 && raw@ == block_bytes(
                        e,
                        iv,
                    ) implies false by {
                    assert(data@ == raw_block(e, iv));
                    assert(raw_block(e, iv).len() >= 4);
                }
            }
            return None;
        }
        let cnt32 = get_u32_le(&data, dlen - 4);
        let fits = cnt32 as u64 * 4 + 4 <= dlen as u64;
        if !fits {
            proof {
                assert forall|e: Seq<(Seq<u8>, Seq<u8>)>, iv: int|
                    1 <= iv && raw_block(e, iv).len() < 0x1_0000_0000 && raw@ == block_bytes(
                        e,
                        iv,
                    ) implies false by {
                    assert(data@ == raw_block(e, iv));
                    block_trailer_facts(e, iv, data@);
                }
            }
            return None;
        }
        let cnt = cnt32 as usize;
        let off = dlen - 4 - 4 * cnt;
        let mut restarts: Vec<u32> = Vec::new();
        let mut i: usize = 0;
        while i < cnt
            invariant
                i <= cnt,
                4 * cnt + 4 <= data@.len(),
                off == data@.len() - 4 - 4 * cnt,
                restarts@.len() == i,
                forall|j: int|
                    0 <= j < i ==> #[trigger] restarts@[j] == le32_val(
                        data@.subrange(off + 4 * j, off + 4 * j + 4),
                    ),
            decreases cnt - i,
        {
            let x = get_u32_le(&data, off + 4 * i);
            restarts.push(x);
            i = i + 1;
        }
        let ghost data_pre = data@;
        data.truncate(off);
        let b = Block { data, restarts };
        proof {
            assert forall|e: Seq<(Seq<u8>, Seq<u8>)>, iv: int|
                1 <= iv && raw_block(e, iv).len() < 0x1_0000_0000 && raw@ == block_bytes(
                    e,
                    iv,
                ) implies b.data@ == payload(e, iv) && b.restarts@.map_values(|x: u32| x as int)
                == restarts_spec(e, 0, iv) by {
                assert(data_pre == raw_block(e, iv));
                block_trailer_facts(e, iv, data_pre);
                let rs = restarts_spec(e, 0, iv);
                let pl = payload(e, iv);
                assert(cnt32 == le32_val(data_pre.subrange(dlen - 4, dlen as int)));
                assert(cnt == rs.len());
                assert(off == pl.len());
                assert(b.data@ =~= pl);
                assert forall|j: int| 0 <= j < rs.len() implies restarts@[j] as int == rs[j] by {
                    assert(restarts@[j] == le32_val(data_pre.subrange(off + 4 * j, off + 4 * j + 4)));
                    assert(data_pre.subrange(pl.len() + 4 * j, pl.len() + 4 * j + 4) == le32(
                        rs[j] as u32,
                    ));
                    lemma_le32_round_trip(rs[j] as u32);
                }
                assert(b.restarts@.map_values(|x: u32| x as int) =~= rs);
            }
        }
        Some(b)
    }
}


// ---------------------------------------------------------------------------
// Filters and the full table
// ---------------------------------------------------------------------------

/// The filter section: each serialized filter behind a 32-bit length prefix.
pub open spec fn filters_concat(fs: Seq<Seq<u8>>) -> Seq<u8>
    decreases fs.len(),
{
    if fs.len() == 0 {
        Seq::empty()
    } else {
        filters_concat(fs.drop_last()) + le32(fs.last().len() as u32) + fs.last()
    }
}

/// The filter offset table: the absolute table offset of each filter's
/// length prefix, the section starting at `base`.
pub open spec fn offsets_concat(fs: Seq<Seq<u8>>, base: int) -> Seq<u8>
    decreases fs.len(),
{
    if fs.len() == 0 {
        Seq::empty()
    } else {
        offsets_concat(fs.drop_last(), base) + le32(
            (base + filters_concat(fs.drop_last()).len()) as u32,
        )
    }
}

/// Serialized size of a filter over `n` keys, including its length prefix.
pub open spec fn spec_filter_entry_size(n: int) -> int {
    ((if 10 * n > 64 {
        10 * n
    } else {
        64
    }) + 7) / 8 + 9
}

/// Builds and holds one Bloom filter per finished data block.
pub struct FiltersBuilder {
    filters: Vec<BloomFilter>,
    total: u64,
    keysets: Ghost<Seq<Seq<Seq<u8>>>>,
}

impl FiltersBuilder {
    /// The key set each held filter was built over.
    pub closed spec fn spec_keysets(&self) -> Seq<Seq<Seq<u8>>> {
        self.keysets@
    }

    /// The serialized bytes of each held filter.
    pub closed spec fn spec_filter_bytes(&self) -> Seq<Seq<u8>> {
        self.filters@.map_values(|f: BloomFilter| bloom_bytes(f.spec_array(), f.spec_k()))
    }

    /// The byte size of the filter section as it stands.
    pub closed spec fn spec_total(&self) -> int {
        self.total as int
    }

    pub closed spec fn wf(&self) -> bool {
        &&& self.filters@.len() == self.keysets@.len()
        &&& forall|i: int| 0 <= i < self.filters@.len() ==> (#[trigger] self.filters@[i]).wf()
        &&& forall|i: int, j: int|
            0 <= i < self.filters@.len() && 0 <= j < self.keysets@[i].len()
                ==> self.filters@[i].spec_may_match(#[trigger] self.keysets@[i][j])
        &&& self.total == filters_concat(self.spec_filter_bytes()).len()
        &&& self.total < 0x1_0000_0000
        &&& self.filters@.len() * 13 <= self.total
    }

    /// The byte size of the filter section as it stands.
    pub fn total_size(&self) -> (r: u64)
        ensures
            r == self.spec_total(),
    {
        self.total
    }

    pub fn new() -> (r: FiltersBuilder)
        ensures
            r.wf(),
            r.spec_keysets() == Seq::<Seq<Seq<u8>>>::empty(),
            r.spec_total() == 0,
    {
        let r = FiltersBuilder { filters: Vec::new(), total: 0, keysets: Ghost(Seq::empty()) };
        proof {
            assert(r.spec_filter_bytes() =~= Seq::<Seq<u8>>::empty());
        }
        r
    }

    /// Builds a filter over the keys of one finished block and keeps it.
    pub fn add_filter(&mut self, keys: &Vec<Vec<u8>>)
        requires
            old(self).wf(),
            forall|i: int| 0 <= i < keys@.len() ==> #[trigger] keys@[i]@.len() < 0x1_0000_0000,
            keys@.len() * 10 + 7 < 0x1_0000_0000,
            old(self).spec_total() + spec_filter_entry_size(keys@.len() as int) < 0x1_0000_0000,
        ensures
            final(self).wf(),
            final(self).spec_keysets() == old(self).spec_keysets().push(
                keys@.map_values(|k: Vec<u8>| k@),
            ),
            final(self).spec_total() == old(self).spec_total() + spec_filter_entry_size(
                keys@.len() as int,
            ),
            exists|arr: Seq<u8>, k: u8|
                {
                    &&& final(self).spec_filter_bytes() == old(self).spec_filter_bytes().push(
                        #[trigger] bloom_bytes(arr, k),
                    )
                    &&& arr.len() >= 1
                    &&& arr.len() * 8 < 0x1_0000_0000
                    &&& k >= 1
                    &&& forall|j: int|
                        0 <= j < keys@.len() ==> all_probes_set(arr, #[trigger] keys@[j]@, k as nat)
                },
    {
        let ghost fsb0 = self.spec_filter_bytes();
        let f = BloomFilter::new(keys);
        let ghost fb = bloom_bytes(f.spec_array(), f.spec_k());
        self.total = self.total + 4 + 4 + f.serialized_array_len() as u64 + 1;
        self.filters.push(f);
        proof {
            self.keysets@ = self.keysets@.push(keys@.map_values(|k: Vec<u8>| k@));
            assert(self.spec_filter_bytes() =~= fsb0.push(fb));
            assert(self.spec_filter_bytes().drop_last() =~= fsb0);
            assert(filters_concat(self.spec_filter_bytes()) == filters_concat(fsb0) + le32(
                fb.len() as u32,
            ) + fb);
            assert forall|i: int, j: int|
                0 <= i < self.filters@.len() && 0 <= j < self.keysets@[i].len()
                    implies self.filters@[i].spec_may_match(#[trigger] self.keysets@[i][j]) by {
                if i < self.filters@.len() - 1 {
                    assert(self.filters@[i] == old(self).filters@[i]);
                    assert(self.keysets@[i] == old(self).keysets@[i]);
                } else {
                    assert(self.keysets@[i][j] == keys@[j]@);
                }
            }
            let arr_w = f.spec_array();
            let k_w = f.spec_k();
            assert(self.spec_filter_bytes() == fsb0.push(bloom_bytes(arr_w, k_w)));
            assert(forall|j: int|
                0 <= j < keys@.len() ==> all_probes_set(arr_w, #[trigger] keys@[j]@, k_w as nat));
        }
    }

    /// Writes the filter section and its offset table, the section assumed
    /// to start at absolute table offset `base`; resets the builder. `None`
    /// exactly when the offset table would not fit 32-bit offsets.
    #[verifier::loop_isolation(false)]
    #[verifier::rlimit(100)]
    pub fn done(&mut self, base: u32) -> (r: Option<Vec<u8>>)
        requires
            old(self).wf(),
        ensures
            final(self).wf(),
            final(self).spec_keysets() == Seq::<Seq<Seq<u8>>>::empty(),
            final(self).spec_total() == 0,
            r is Some <==> base + old(self).spec_total() + 4 * old(self).spec_keysets().len()
                < 0x1_0000_0000,
            r matches Some(v) ==> v@ == filters_concat(old(self).spec_filter_bytes())
                + offsets_concat(old(self).spec_filter_bytes(), base as int),
    {
        let ghost fsb = self.spec_filter_bytes();
        let n = self.filters.len();
        let fits = (base as u64) + self.total + 4 * (n as u64) < 0x1_0000_0000;
        if !fits {
            self.filters = Vec::new();
            self.total = 0;
            proof {
                self.keysets@ = Seq::empty();
                assert(self.spec_filter_bytes() =~= Seq::<Seq<u8>>::empty());
            }
            return None;
        }
        let mut out: Vec<u8> = Vec::new();
        let mut offs: Vec<u32> = Vec::new();
        let mut i: usize = 0;
        while i < n
            invariant
                i <= n,
                n == self.filters@.len(),
                *self == *old(self),
                out@ == filters_concat(fsb.take(i as int)),
                out@.len() <= self.total,
                offs@.len() == i,
                forall|j: int|
                    0 <= j < i ==> #[trigger] offs@[j] as int == base + filters_concat(
                        fsb.take(j),
                    ).len(),
            decreases n - i,
        {
            let ghost pre = fsb.take(i as int);
            proof {
                lemma_filters_concat_prefix(fsb, i as int);
                assert(fsb[i as int] == bloom_bytes(
                    self.filters@[i as int].spec_array(),
                    self.filters@[i as int].spec_k(),
                ));
            }
            offs.push(base + out.len() as u32);
            let fb = self.filters[i].serialize();
            put_u32_le(&mut out, fb.len() as u32);
            append_range(&mut out, &fb, 0, fb.len());
            proof {
                assert(fsb.take(i + 1).drop_last() =~= pre);
                assert(fsb.take(i + 1).last() == fsb[i as int]);
                assert(fb@.subrange(0, fb@.len() as int) =~= fb@);
                assert(out@ =~= filters_concat(pre) + le32(fb@.len() as u32) + fb@);
                assert(out@ == filters_concat(fsb.take(i + 1)));
                lemma_filters_concat_prefix(fsb, i + 1);
            }
            i = i + 1;
        }
        proof {
            assert(fsb.take(n as int) =~= fsb);
        }
        let sect_len = out.len();
        let mut i2: usize = 0;
        while i2 < n
            invariant
                i2 <= n,
                offs@.len() == n,
                sect_len == filters_concat(fsb).len(),
                forall|j: int|
                    0 <= j < n ==> #[trigger] offs@[j] as int == base + filters_concat(
                        fsb.take(j),
                    ).len(),
                out@ == filters_concat(fsb) + offsets_concat(fsb.take(i2 as int), base as int),
            decreases n - i2,
        {
            let x = offs[i2];
            put_u32_le(&mut out, x);
            proof {
                assert(fsb.take(i2 + 1).drop_last() =~= fsb.take(i2 as int));
                assert(fsb.take(i2 + 1).last() == fsb[i2 as int]);
                assert(offsets_concat(fsb.take(i2 + 1), base as int) == offsets_concat(
                    fsb.take(i2 as int),
                    base as int,
                ) + le32((base + filters_concat(fsb.take(i2 as int)).len()) as u32));
                assert(x as int == base + filters_concat(fsb.take(i2 as int)).len());
                assert(out@ =~= filters_concat(fsb) + offsets_concat(
                    fsb.take(i2 + 1),
                    base as int,
                ));
            }
            i2 = i2 + 1;
        }
        proof {
            assert(fsb.take(n as int) =~= fsb);
        }
        self.filters = Vec::new();
        self.total = 0;
        proof {
            self.keysets@ = Seq::empty();
            assert(self.spec_filter_bytes() =~= Seq::<Seq<u8>>::empty());
        }
        Some(out)
    }
}

/// A prefix of the filter list contributes a prefix of the section.
pub proof fn lemma_filters_concat_prefix(fs: Seq<Seq<u8>>, i: int)
    requires
        0 <= i <= fs.len(),
    ensures
        filters_concat(fs.take(i)).len() <= filters_concat(fs).len(),
    decreases fs.len(),
{
    if fs.len() > 0 {
        lemma_filters_concat_prefix(fs.drop_last(), if i < fs.len() {
            i
        } else {
            (fs.len() - 1) as int
        });
        if i < fs.len() {
            assert(fs.drop_last().take(i) =~= fs.take(i));
        } else {
            assert(fs.take(i) =~= fs);
        }
    }
}


// ---------------------------------------------------------------------------
// Table builder
// ---------------------------------------------------------------------------

/// The data blocks of a table, back to back.
pub open spec fn blocks_concat(groups: Seq<Seq<(Seq<u8>, Seq<u8>)>>, iv: int) -> Seq<u8>
    decreases groups.len(),
{
    if groups.len() == 0 {
        Seq::empty()
    } else {
        blocks_concat(groups.drop_last(), iv) + block_bytes(groups.last(), iv)
    }
}

/// All pairs of all groups, in order.
pub open spec fn flatten_groups(groups: Seq<Seq<(Seq<u8>, Seq<u8>)>>) -> Seq<(Seq<u8>, Seq<u8>)>
    decreases groups.len(),
{
    if groups.len() == 0 {
        Seq::empty()
    } else {
        flatten_groups(groups.drop_last()) + groups.last()
    }
}

/// Byte offset of data block `i` within the table.
pub open spec fn block_offset(groups: Seq<Seq<(Seq<u8>, Seq<u8>)>>, iv: int, i: int) -> int {
    blocks_concat(groups.take(i), iv).len() as int
}

/// The index block's entries: one per data block, keyed by the block's last
/// key, the value its offset and length as variable-length integers.
pub open spec fn index_entries(groups: Seq<Seq<(Seq<u8>, Seq<u8>)>>, iv: int) -> Seq<
    (Seq<u8>, Seq<u8>),
> {
    Seq::new(
        groups.len(),
        |i: int|
            (
                groups[i].last().0,
                varint(block_offset(groups, iv, i) as nat) + varint(
                    block_bytes(groups[i], iv).len() as nat,
                ),
            ),
    )
}

/// The table's trailing magic.
pub open spec fn table_magic() -> Seq<u8> {
    seq![84u8, 66u8, 76u8, 49u8]
}

/// The complete table artifact over the given data-block groups and
/// serialized filters.
pub open spec fn table_bytes(groups: Seq<Seq<(Seq<u8>, Seq<u8>)>>, fs: Seq<Seq<u8>>, iv: int) -> Seq<
    u8,
> {
    let b = blocks_concat(groups, iv);
    let fc = filters_concat(fs);
    let oc = offsets_concat(fs, b.len() as int);
    let ib = block_bytes(index_entries(groups, iv), 2);
    let oft = b.len() + fc.len();
    let ioff = oft + oc.len();
    b + fc + oc + ib + le32(oft as u32) + le32(ioff as u32) + le32(ib.len() as u32) + table_magic()
}

/// Each serialized filter parses back to a filter that answers `true` for
/// every key of its data block.
pub open spec fn filters_cover(fs: Seq<Seq<u8>>, groups: Seq<Seq<(Seq<u8>, Seq<u8>)>>) -> bool {
    &&& fs.len() == groups.len()
    &&& forall|i: int|
        #![trigger fs[i]]
        0 <= i < fs.len() ==> exists|arr: Seq<u8>, k: u8|
            {
                &&& fs[i] == #[trigger] bloom_bytes(arr, k)
                &&& arr.len() >= 1
                &&& arr.len() * 8 < 0x1_0000_0000
                &&& k >= 1
                &&& forall|j: int| 0 <= j < groups[i].len() ==> all_probes_set(
                    arr,
                    (#[trigger] groups[i][j]).0,
                    k as nat,
                )
            }
}


/// Appending one finished block extends the index by exactly one entry.
proof fn lemma_index_entries_push(
    groups: Seq<Seq<(Seq<u8>, Seq<u8>)>>,
    g: Seq<(Seq<u8>, Seq<u8>)>,
    iv: int,
)
    ensures
        index_entries(groups.push(g), iv) == index_entries(groups, iv).push(
            (
                g.last().0,
                varint(blocks_concat(groups, iv).len() as nat) + varint(
                    block_bytes(g, iv).len() as nat,
                ),
            ),
        ),
        blocks_concat(groups.push(g), iv) == blocks_concat(groups, iv) + block_bytes(g, iv),
        flatten_groups(groups.push(g)) == flatten_groups(groups) + g,
{
    let g2 = groups.push(g);
    assert(g2.drop_last() =~= groups);
    assert(g2.last() == g);
    let ie2 = index_entries(g2, iv);
    let ie0 = index_entries(groups, iv);
    assert(g2.take(groups.len() as int) =~= groups);
    assert forall|i: int| 0 <= i < groups.len() implies ie0[i] == ie2[i] by {
        assert(g2[i] == groups[i]);
        assert(g2.take(i) =~= groups.take(i));
    }
    assert(ie2 =~= ie0.push(
        (
            g.last().0,
            varint(blocks_concat(groups, iv).len() as nat) + varint(
                block_bytes(g, iv).len() as nat,
            ),
        ),
    ));
}


/// The offset table holds four bytes per filter.
pub proof fn lemma_offsets_concat_len(fs: Seq<Seq<u8>>, base: int)
    ensures
        offsets_concat(fs, base).len() == 4 * fs.len(),
    decreases fs.len(),
{
    if fs.len() > 0 {
        lemma_offsets_concat_len(fs.drop_last(), base);
    }
}

/// The held filters of a well-formed filter builder cover the key sets they
/// were built over; carried over to the blocks those key sets mirror.
proof fn lemma_filters_cover_blocks(fb: FiltersBuilder, blocks: Seq<Seq<(Seq<u8>, Seq<u8>)>>)
    requires
        fb.wf(),
        fb.spec_keysets().len() == blocks.len(),
        forall|i: int|
            0 <= i < blocks.len() ==> (#[trigger] fb.spec_keysets()[i]).len() == blocks[i].len(),
        forall|i: int, j: int|
            0 <= i < blocks.len() && 0 <= j < blocks[i].len() ==> fb.spec_keysets()[i][j] == (
            #[trigger] blocks[i][j]).0,
    ensures
        filters_cover(fb.spec_filter_bytes(), blocks),
{
    let fsb = fb.spec_filter_bytes();
    assert(fsb.len() == blocks.len());
    assert forall|i: int| #![trigger fsb[i]] 0 <= i < fsb.len() implies exists|arr: Seq<u8>, k: u8|
        {
            &&& fsb[i] == #[trigger] bloom_bytes(arr, k)
            &&& arr.len() >= 1
            &&& arr.len() * 8 < 0x1_0000_0000
            &&& k >= 1
            &&& forall|j: int|
                0 <= j < blocks[i].len() ==> all_probes_set(arr, (#[trigger] blocks[i][j]).0, k as nat)
        } by {
        let arr = fb.filters@[i].spec_array();
        let k = fb.filters@[i].spec_k();
        assert(fsb[i] == bloom_bytes(arr, k));
        assert(fb.filters@[i].wf());
        assert forall|j: int| 0 <= j < blocks[i].len() implies all_probes_set(
            arr,
            (#[trigger] blocks[i][j]).0,
            k as nat,
        ) by {
            assert(fb.filters@[i].spec_may_match(fb.spec_keysets()[i][j]));
            assert(fb.spec_keysets()[i][j] == blocks[i][j].0);
        }
        assert({
            &&& fsb[i] == bloom_bytes(arr, k)
            &&& arr.len() >= 1
            &&& arr.len() * 8 < 0x1_0000_0000
            &&& k >= 1
            &&& forall|j: int|
                0 <= j < blocks[i].len() ==> all_probes_set(arr, (#[trigger] blocks[i][j]).0, k as nat)
        });
    }
}

/// The assembled artifact is the table-bytes spec, piece by piece.
proof fn lemma_table_assembly(
    b: Seq<u8>,
    fc: Seq<u8>,
    oc: Seq<u8>,
    ib: Seq<u8>,
    oft: int,
    ioff: int,
    groups: Seq<Seq<(Seq<u8>, Seq<u8>)>>,
    fs: Seq<Seq<u8>>,
    iv: int,
)
    requires
        b == blocks_concat(groups, iv),
        fc == filters_concat(fs),
        oc == offsets_concat(fs, b.len() as int),
        ib == block_bytes(index_entries(groups, iv), 2),
        oft == b.len() + fc.len(),
        ioff == oft + oc.len(),
    ensures
        table_bytes(groups, fs, iv) == b + fc + oc + ib + le32(oft as u32) + le32(ioff as u32)
            + le32(ib.len() as u32) + table_magic(),
{
    assert(table_bytes(groups, fs, iv) =~= b + fc + oc + ib + le32(oft as u32) + le32(ioff as u32)
        + le32(ib.len() as u32) + table_magic());
}


/// After cutting the pending block, the assembly conditions are exactly the
/// remaining conditions of `spec_done_ok` as seen from the old state.
proof fn lemma_done_bridge(t0: TableBuilder, t1: TableBuilder)
    requires
        t0.spec_curr().len() > 0,
        t1.spec_blocks() == t0.spec_blocks().push(t0.spec_curr()),
        t1.spec_buffer_view() == t0.spec_buffer_view() + block_bytes(
            t0.spec_curr(),
            BLOCK_RESTART_INTERVAL as int,
        ),
        t1.spec_filters_total() == t0.spec_filters_total() + spec_filter_entry_size(
            t0.spec_curr().len() as int,
        ),
        t1.spec_filter_bytes().len() == t0.spec_filter_bytes().len() + 1,
    ensures
        t0.spec_done_ok() == (t0.spec_can_cut() && t1.spec_assemble_fits()),
{
}

/// With a pending block that cannot be cut, `done` cannot succeed.
proof fn lemma_done_needs_cut(t0: TableBuilder)
    requires
        t0.spec_curr().len() > 0,
        !t0.spec_can_cut(),
    ensures
        !t0.spec_done_ok(),
{
}

/// With no pending block, `done` succeeds exactly when the table assembles.
proof fn lemma_done_no_cut(t0: TableBuilder)
    requires
        t0.spec_curr().len() == 0,
    ensures
        t0.spec_done_ok() == t0.spec_assemble_fits(),
{
}

/// Assembles many data blocks, one Bloom filter per block, an index block
/// and a footer into one immutable byte artifact.
pub struct TableBuilder {
    buffer: Vec<u8>,
    data_builder: BlockBuilder,
    index_builder: BlockBuilder,
    filters_builder: FiltersBuilder,
    curr_keys: Vec<Vec<u8>>,
    blocks: Ghost<Seq<Seq<(Seq<u8>, Seq<u8>)>>>,
}

impl TableBuilder {
    /// The finished data-block groups.
    pub closed spec fn spec_blocks(&self) -> Seq<Seq<(Seq<u8>, Seq<u8>)>> {
        self.blocks@
    }

    /// The entries of the block being accumulated.
    pub closed spec fn spec_curr(&self) -> Seq<(Seq<u8>, Seq<u8>)> {
        self.data_builder.spec_entries()
    }

    /// Every pair added since the last reset, in order.
    pub open spec fn spec_pairs(&self) -> Seq<(Seq<u8>, Seq<u8>)> {
        flatten_groups(self.spec_blocks()) + self.spec_curr()
    }

    pub closed spec fn spec_buffer_view(&self) -> Seq<u8> {
        self.buffer@
    }

    /// Size estimate of the current data block.
    pub closed spec fn spec_curr_size(&self) -> int {
        self.data_builder.spec_buffer_len() + 4 * self.data_builder.spec_restart_count()
    }

    /// Byte size of the filter section as it stands.
    pub closed spec fn spec_filters_total(&self) -> int {
        self.filters_builder.spec_total()
    }

    /// The serialized bytes of the filters built so far, one per block.
    pub closed spec fn spec_filter_bytes(&self) -> Seq<Seq<u8>> {
        self.filters_builder.spec_filter_bytes()
    }

    /// Size estimate of the index block under construction.
    pub closed spec fn spec_index_size(&self) -> int {
        self.index_builder.spec_buffer_len() + 4 * self.index_builder.spec_restart_count()
    }

    /// The index entries recorded so far, one per finished block.
    pub closed spec fn spec_index_entries_view(&self) -> Seq<(Seq<u8>, Seq<u8>)> {
        self.index_builder.spec_entries()
    }

    /// The size conditions under which the pending block can be cut: the
    /// block bytes, its filter, and its index entry all stay within the
    /// format's 32-bit offsets.
    pub open spec fn spec_can_cut(&self) -> bool {
        &&& self.spec_buffer_view().len() + block_bytes(
            self.spec_curr(),
            BLOCK_RESTART_INTERVAL as int,
        ).len() < 0x1_0000_0000
        &&& self.spec_filters_total() + spec_filter_entry_size(self.spec_curr().len() as int)
            < 0x1_0000_0000
        &&& self.spec_index_size() + self.spec_curr().last().0.len() + 40 < 0x2000_0000
    }

    /// The size conditions under which the flushed blocks, filters, offset
    /// table and index block can be assembled with 32-bit footer offsets.
    pub open spec fn spec_assemble_fits(&self) -> bool {
        &&& self.spec_buffer_view().len() + self.spec_filters_total() + 4
            * self.spec_filter_bytes().len() < 0x1_0000_0000
        &&& block_bytes(index_entries(self.spec_blocks(), BLOCK_RESTART_INTERVAL as int), 2).len()
            < 0x1_0000_0000
    }

    /// The size conditions under which `done` yields an artifact: the
    /// pending block (if any) can be cut, and the table then assembles.
    pub open spec fn spec_done_ok(&self) -> bool {
        if self.spec_curr().len() > 0 {
            let groups = self.spec_blocks().push(self.spec_curr());
            &&& self.spec_can_cut()
            &&& (self.spec_buffer_view().len() + block_bytes(
                self.spec_curr(),
                BLOCK_RESTART_INTERVAL as int,
            ).len()) + (self.spec_filters_total() + spec_filter_entry_size(
                self.spec_curr().len() as int,
            )) + 4 * (self.spec_filter_bytes().len() + 1) < 0x1_0000_0000
            &&& block_bytes(index_entries(groups, BLOCK_RESTART_INTERVAL as int), 2).len()
                < 0x1_0000_0000
        } else {
            self.spec_assemble_fits()
        }
    }

    /// The data-block groups `done` will write: the finished blocks, plus
    /// the pending block if it holds entries.
    pub open spec fn spec_groups_at_done(&self) -> Seq<Seq<(Seq<u8>, Seq<u8>)>> {
        if self.spec_curr().len() > 0 {
            self.spec_blocks().push(self.spec_curr())
        } else {
            self.spec_blocks()
        }
    }

    /// The size conditions under which one pair can be added: cut first when
    /// the block is over budget, and the entry must fit the block's bound.
    pub open spec fn spec_add_ok(&self, k: Seq<u8>, v: Seq<u8>) -> bool {
        if self.spec_curr_size() > BLOCK_SIZE {
            k.len() + v.len() + 20 < 0x2000_0000 && self.spec_can_cut()
        } else {
            self.spec_curr_size() + k.len() + v.len() + 20 < 0x2000_0000
        }
    }

    pub closed spec fn wf(&self) -> bool {
        &&& self.data_builder.wf()
        &&& self.data_builder.spec_interval() == BLOCK_RESTART_INTERVAL
        &&& self.index_builder.wf()
        &&& self.index_builder.spec_interval() == 2
        &&& self.filters_builder.wf()
        &&& self.buffer@ == blocks_concat(self.blocks@, BLOCK_RESTART_INTERVAL as int)
        &&& self.buffer@.len() < 0x1_0000_0000
        &&& self.index_builder.spec_entries() == index_entries(
            self.blocks@,
            BLOCK_RESTART_INTERVAL as int,
        )
        &&& self.filters_builder.spec_keysets().len() == self.blocks@.len()
        &&& forall|i: int|
            0 <= i < self.blocks@.len() ==> (#[trigger] self.filters_builder.spec_keysets()[i]).len()
                == self.blocks@[i].len()
        &&& forall|i: int, j: int|
            0 <= i < self.blocks@.len() && 0 <= j < self.blocks@[i].len()
                ==> self.filters_builder.spec_keysets()[i][j] == (#[trigger] self.blocks@[i][j]).0
        &&& self.curr_keys@.len() == self.data_builder.spec_entries().len()
        &&& forall|i: int|
            0 <= i < self.curr_keys@.len() ==> (#[trigger] self.curr_keys@[i])@
                == self.data_builder.spec_entries()[i].0
        &&& forall|i: int| 0 <= i < self.blocks@.len() ==> (#[trigger] self.blocks@[i]).len() > 0
    }

    pub fn new() -> (r: TableBuilder)
        ensures
            r.wf(),
            r.spec_pairs() == Seq::<(Seq<u8>, Seq<u8>)>::empty(),
            r.spec_blocks() == Seq::<Seq<(Seq<u8>, Seq<u8>)>>::empty(),
    {
        let r = TableBuilder {
            buffer: Vec::new(),
            data_builder: BlockBuilder::new(BLOCK_RESTART_INTERVAL),
            index_builder: BlockBuilder::new(2),
            filters_builder: FiltersBuilder::new(),
            curr_keys: Vec::new(),
            blocks: Ghost(Seq::empty()),
        };
        proof {
            assert(r.buffer@ =~= blocks_concat(r.blocks@, BLOCK_RESTART_INTERVAL as int));
            assert(r.index_builder.spec_entries() =~= index_entries(
                r.blocks@,
                BLOCK_RESTART_INTERVAL as int,
            ));
            assert(r.spec_pairs() =~= Seq::<(Seq<u8>, Seq<u8>)>::empty());
        }
        r
    }

    /// Cuts the current data block: builds its filter, appends its bytes to
    /// the table, and records its last key and location in the index.
    /// Returns `false`, changing nothing, when the block or its filter would
    /// push the table past the format's 32-bit offsets.
    #[verifier::rlimit(100)]
    pub fn finish_curr_data_block(&mut self) -> (r: bool)
        requires
            old(self).wf(),
            old(self).spec_curr().len() > 0,
        ensures
            final(self).wf(),
            r <==> old(self).spec_can_cut(),
            !r ==> *final(self) == *old(self),
            r ==> final(self).spec_blocks() == old(self).spec_blocks().push(old(self).spec_curr()),
            r ==> final(self).spec_curr() == Seq::<(Seq<u8>, Seq<u8>)>::empty(),
            r ==> final(self).spec_pairs() == old(self).spec_pairs(),
            r ==> final(self).spec_buffer_view() == old(self).spec_buffer_view() + block_bytes(
                old(self).spec_curr(),
                BLOCK_RESTART_INTERVAL as int,
            ),
            r ==> final(self).spec_index_entries_view() == old(self).spec_index_entries_view().push(
                (
                    old(self).spec_curr().last().0,
                    varint(old(self).spec_buffer_view().len() as nat) + varint(
                        block_bytes(old(self).spec_curr(), BLOCK_RESTART_INTERVAL as int).len() as nat,
                    ),
                ),
            ),
            r ==> final(self).spec_filters_total() == old(self).spec_filters_total()
                + spec_filter_entry_size(old(self).spec_curr().len() as int),
            r ==> final(self).spec_filter_bytes().len() == old(self).spec_filter_bytes().len() + 1,
            r ==> (exists|arr: Seq<u8>, k: u8|
                {
                    &&& final(self).spec_filter_bytes() == old(self).spec_filter_bytes().push(
                        #[trigger] bloom_bytes(arr, k),
                    )
                    &&& arr.len() >= 1
                    &&& arr.len() * 8 < 0x1_0000_0000
                    &&& k >= 1
                    &&& forall|j: int|
                        0 <= j < old(self).spec_curr().len() ==> all_probes_set(
                            arr,
                            (#[trigger] old(self).spec_curr()[j]).0,
                            k as nat,
                        )
                }),
    {
        let ghost iv = BLOCK_RESTART_INTERVAL as int;
        let ghost curr = self.data_builder.spec_entries();
        let bytes = self.data_builder.encode();
        let nkeys = self.curr_keys.len();
        let fits_buf = (self.buffer.len() as u128) + (bytes.len() as u128) < 0x1_0000_0000;
        let filter_sz = (if 10 * (nkeys as u64) > 64 {
            10 * (nkeys as u64)
        } else {
            64u64
        } + 7) / 8 + 9;
        let fits_filter = (self.filters_builder.total_size() as u128) + (filter_sz as u128)
            < 0x1_0000_0000;
        let last_key_len = self.curr_keys[nkeys - 1].len();
        let fits_index = (self.index_builder.size() as u128) + (last_key_len as u128) + 40
            < 0x2000_0000;
        proof {
            assert(filter_sz as int == spec_filter_entry_size(curr.len() as int));
            assert(self.curr_keys@[nkeys - 1]@ == curr.last().0);
            assert((fits_buf && fits_filter && fits_index) == self.spec_can_cut());
        }
        if !(fits_buf && fits_filter && fits_index) {
            return false;
        }
        self.commit_block(bytes);
        true
    }

    /// Second half of cutting a block: builds the filter, appends the block
    /// bytes, and records the index entry. The size checks have passed.
    #[verifier::rlimit(100)]
    fn commit_block(&mut self, bytes: Vec<u8>)
        requires
            old(self).wf(),
            old(self).spec_curr().len() > 0,
            bytes@ == block_bytes(old(self).spec_curr(), BLOCK_RESTART_INTERVAL as int),
            old(self).spec_buffer_view().len() + bytes@.len() < 0x1_0000_0000,
            old(self).filters_builder.spec_total() + spec_filter_entry_size(
                old(self).spec_curr().len() as int,
            ) < 0x1_0000_0000,
            old(self).index_builder.spec_buffer_len() + 4 * old(self).index_builder.spec_restart_count()
                + old(self).spec_curr().last().0.len() + 40 < 0x2000_0000,
        ensures
            final(self).wf(),
            final(self).spec_blocks() == old(self).spec_blocks().push(old(self).spec_curr()),
            final(self).spec_curr() == Seq::<(Seq<u8>, Seq<u8>)>::empty(),
            final(self).spec_pairs() == old(self).spec_pairs(),
            final(self).spec_buffer_view() == old(self).spec_buffer_view() + block_bytes(
                old(self).spec_curr(),
                BLOCK_RESTART_INTERVAL as int,
            ),
            final(self).spec_index_entries_view() == old(self).spec_index_entries_view().push(
                (
                    old(self).spec_curr().last().0,
                    varint(old(self).spec_buffer_view().len() as nat) + varint(
                        block_bytes(old(self).spec_curr(), BLOCK_RESTART_INTERVAL as int).len() as nat,
                    ),
                ),
            ),
            final(self).spec_filters_total() == old(self).spec_filters_total()
                + spec_filter_entry_size(old(self).spec_curr().len() as int),
            final(self).spec_filter_bytes().len() == old(self).spec_filter_bytes().len() + 1,
            exists|arr: Seq<u8>, k: u8|
                {
                    &&& final(self).spec_filter_bytes() == old(self).spec_filter_bytes().push(
                        #[trigger] bloom_bytes(arr, k),
                    )
                    &&& arr.len() >= 1
                    &&& arr.len() * 8 < 0x1_0000_0000
                    &&& k >= 1
                    &&& forall|j: int|
                        0 <= j < old(self).spec_curr().len() ==> all_probes_set(
                            arr,
                            (#[trigger] old(self).spec_curr()[j]).0,
                            k as nat,
                        )
                },
    {
        let ghost iv = BLOCK_RESTART_INTERVAL as int;
        let ghost blocks0 = self.blocks@;
        let ghost curr = self.data_builder.spec_entries();
        let ghost keys_view = self.curr_keys@.map_values(|k: Vec<u8>| k@);
        let nkeys = self.curr_keys.len();
        proof {
            assert(keys_view.len() == curr.len());
            assert forall|i: int| 0 <= i < keys_view.len() implies #[trigger] keys_view[i]
                == curr[i].0 by {
                assert(self.curr_keys@[i]@ == curr[i].0);
            }
            assert forall|i: int| 0 <= i < self.curr_keys@.len() implies #[trigger] self.curr_keys@[i]@.len()
                < 0x1_0000_0000 by {
                assert(self.curr_keys@[i]@ == curr[i].0);
                lemma_key_bound(curr, i, iv);
                assert(payload(curr, iv).len() < 0x2000_0000);
            }
            assert(10 * self.curr_keys@.len() + 7 < 0x1_0000_0000) by {
                assert(3 * curr.len() <= self.data_builder.spec_buffer_len());
            }
        }
        self.filters_builder.add_filter(&self.curr_keys);
        proof {
            assert(self.filters_builder.spec_keysets().last() == keys_view);
            let (arr_w, k_w) = choose|arr: Seq<u8>, k: u8|
                {
                    &&& self.filters_builder.spec_filter_bytes() == old(
                        self,
                    ).filters_builder.spec_filter_bytes().push(#[trigger] bloom_bytes(arr, k))
                    &&& arr.len() >= 1
                    &&& arr.len() * 8 < 0x1_0000_0000
                    &&& k >= 1
                    &&& forall|j: int|
                        0 <= j < self.curr_keys@.len() ==> all_probes_set(
                            arr,
                            (#[trigger] self.curr_keys@[j])@,
                            k as nat,
                        )
                };
            assert forall|j: int| 0 <= j < curr.len() implies all_probes_set(
                arr_w,
                (#[trigger] curr[j]).0,
                k_w as nat,
            ) by {
                assert(self.curr_keys@[j]@ == curr[j].0);
            }
        }
        let offset = self.buffer.len();
        self.data_builder.reset();
        append_range(&mut self.buffer, &bytes, 0, bytes.len());
        let mut oh: Vec<u8> = Vec::new();
        put_varint(&mut oh, offset as u32);
        put_varint(&mut oh, bytes.len() as u32);
        proof {
            lemma_varint_len(offset as nat);
            lemma_varint_len(bytes@.len() as nat);
            assert(oh@.len() <= 10);
        }
        let lk = copy_bytes(&self.curr_keys[nkeys - 1]);
        self.index_builder.add(&lk, &oh);
        self.curr_keys.clear();
        proof {
            self.blocks@ = blocks0.push(curr);
            let blocks2 = self.blocks@;
            lemma_index_entries_push(blocks0, curr, iv);
            assert(bytes@.subrange(0, bytes@.len() as int) =~= bytes@);
            assert(self.buffer@ =~= blocks_concat(blocks0, iv) + block_bytes(curr, iv));
            assert(oh@ =~= varint(offset as nat) + varint(bytes@.len() as nat));
            assert(curr.last().0 == lk@) by {
                assert(keys_view[nkeys - 1] == curr[nkeys - 1].0);
            }
            assert(self.index_builder.spec_entries() == index_entries(blocks2, iv));
            assert(self.filters_builder.spec_keysets().len() == blocks2.len());
            assert forall|i: int|
                0 <= i < blocks2.len() implies (#[trigger] self.filters_builder.spec_keysets()[i]).len()
                == blocks2[i].len() by {
                if i == blocks2.len() - 1 {
                    assert(self.filters_builder.spec_keysets()[i] == keys_view);
                }
            }
            assert forall|i: int, j: int|
                0 <= i < blocks2.len() && 0 <= j < blocks2[i].len()
                implies self.filters_builder.spec_keysets()[i][j] == (
            #[trigger] blocks2[i][j]).0 by {
                if i == blocks2.len() - 1 {
                    assert(self.filters_builder.spec_keysets()[i] == keys_view);
                    assert(keys_view[j] == curr[j].0);
                }
            }
            assert(self.spec_pairs() =~= old(self).spec_pairs()) by {
                assert(flatten_groups(blocks2) =~= flatten_groups(blocks0) + curr);
            }
        }
    }

    /// Adds one pair, cutting the current block first when it has grown past
    /// the block-size budget. Returns `false`, changing nothing, when the
    /// entry or the cut would push the table past its format limits.
    #[verifier::rlimit(100)]
    pub fn add(&mut self, key: &Vec<u8>, val: &Vec<u8>) -> (r: bool)
        requires
            old(self).wf(),
        ensures
            final(self).wf(),
            r <==> old(self).spec_add_ok(key@, val@),
            !r ==> *final(self) == *old(self),
            r ==> final(self).spec_pairs() == old(self).spec_pairs().push((key@, val@)),
            r ==> final(self).spec_curr().len() > 0,
            r && old(self).spec_curr_size() > BLOCK_SIZE ==> final(self).spec_blocks() == old(
                self,
            ).spec_blocks().push(old(self).spec_curr()) && final(self).spec_curr() == seq![
                (key@, val@),
            ],
            r && old(self).spec_curr_size() <= BLOCK_SIZE ==> final(self).spec_blocks() == old(
                self,
            ).spec_blocks() && final(self).spec_curr() == old(self).spec_curr().push(
                (key@, val@),
            ),
    {
        let ghost self0 = *self;
        let big = self.data_builder.size() > BLOCK_SIZE;
        let fits = if big {
            (key.len() as u128) + (val.len() as u128) + 20 < 0x2000_0000
        } else {
            (self.data_builder.size() as u128) + (key.len() as u128) + (val.len() as u128) + 20
                < 0x2000_0000
        };
        if !fits {
            return false;
        }
        if big {
            proof {
                assert(self.data_builder.spec_entries().len() > 0) by {
                    if self.data_builder.spec_entries().len() == 0 {
                        assert(payload(
                            self.data_builder.spec_entries(),
                            BLOCK_RESTART_INTERVAL as int,
                        ) =~= Seq::<u8>::empty());
                        assert(restarts_spec(
                            self.data_builder.spec_entries(),
                            0,
                            BLOCK_RESTART_INTERVAL as int,
                        ) =~= Seq::<int>::empty());
                    }
                }
            }
            if !self.finish_curr_data_block() {
                return false;
            }
            proof {
                assert(payload(
                    self.data_builder.spec_entries(),
                    BLOCK_RESTART_INTERVAL as int,
                ) =~= Seq::<u8>::empty());
                assert(self.data_builder.spec_buffer_len() == 0);
            }
        }
        let ghost pairs_mid = self.spec_pairs();
        let ghost keys_mid = self.curr_keys@;
        let ghost entries_mid = self.data_builder.spec_entries();
        proof {
            if big {
                assert(entries_mid =~= Seq::<(Seq<u8>, Seq<u8>)>::empty());
            }
        }
        self.data_builder.add(key, val);
        self.curr_keys.push(copy_bytes(key));
        proof {
            assert(self.data_builder.spec_entries() == entries_mid.push((key@, val@)));
            assert forall|i: int| 0 <= i < self.curr_keys@.len() implies (
            #[trigger] self.curr_keys@[i])@ == self.data_builder.spec_entries()[i].0 by {
                if i < self.curr_keys@.len() - 1 {
                    assert(self.curr_keys@[i] == keys_mid[i]);
                }
            }
            assert(self.spec_pairs() =~= pairs_mid.push((key@, val@)));
            if big {
                assert(pairs_mid == self0.spec_pairs());
                assert(self.spec_curr() =~= seq![(key@, val@)]);
            }
        }
        true
    }

    /// Writes the filter section, its offset table, the index block and the
    /// footer for the flushed blocks; the builder resets for reuse.
    #[verifier::rlimit(100)]
    fn assemble(&mut self) -> (r: Option<Vec<u8>>)
        requires
            old(self).wf(),
            old(self).spec_curr().len() == 0,
        ensures
            final(self).wf(),
            final(self).spec_pairs() == Seq::<(Seq<u8>, Seq<u8>)>::empty(),
            r is Some <==> old(self).spec_assemble_fits(),
            r matches Some(v) ==> exists|fs: Seq<Seq<u8>>|
                #![trigger filters_cover(fs, old(self).spec_blocks())]
                filters_cover(fs, old(self).spec_blocks()) && v@ == table_bytes(
                    old(self).spec_blocks(),
                    fs,
                    BLOCK_RESTART_INTERVAL as int,
                ),
    {
        let ghost iv = BLOCK_RESTART_INTERVAL as int;
        let ghost blocks0 = self.blocks@;
        let ghost fsb = self.filters_builder.spec_filter_bytes();
        proof {
            lemma_filters_cover_blocks(self.filters_builder, blocks0);
            lemma_offsets_concat_len(fsb, self.buffer@.len() as int);
            assert(self.filters_builder.spec_keysets().len() == fsb.len());
        }
        let base = self.buffer.len();
        let old_total = self.filters_builder.total_size();
        let fsec = match self.filters_builder.done(base as u32) {
            Some(v) => v,
            None => {
                *self = TableBuilder::new();
                return None;
            },
        };
        let ib = self.index_builder.encode();
        proof {
            assert(ib@ == block_bytes(index_entries(blocks0, iv), 2));
        }
        if !((ib.len() as u128) < 0x1_0000_0000) {
            *self = TableBuilder::new();
            return None;
        }
        let mut out: Vec<u8> = Vec::new();
        append_range(&mut out, &self.buffer, 0, base);
        append_range(&mut out, &fsec, 0, fsec.len());
        append_range(&mut out, &ib, 0, ib.len());
        let oft64: u64 = (base as u64) + old_total;
        let ioff64: u64 = (base as u64) + (fsec.len() as u64);
        proof {
            assert(fsec@.len() == old_total + 4 * fsb.len());
            assert(ioff64 < 0x1_0000_0000);
        }
        put_u32_le(&mut out, oft64 as u32);
        put_u32_le(&mut out, ioff64 as u32);
        put_u32_le(&mut out, ib.len() as u32);
        out.push(84u8);
        out.push(66u8);
        out.push(76u8);
        out.push(49u8);
        proof {
            let b = blocks_concat(blocks0, iv);
            let fc = filters_concat(fsb);
            let oc = offsets_concat(fsb, b.len() as int);
            let ibs = block_bytes(index_entries(blocks0, iv), 2);
            assert(self.buffer@.subrange(0, base as int) =~= b);
            assert(fsec@.subrange(0, fsec@.len() as int) =~= fc + oc);
            assert(ib@.subrange(0, ib@.len() as int) =~= ibs);
            lemma_table_assembly(b, fc, oc, ibs, oft64 as int, ioff64 as int, blocks0, fsb, iv);
            assert(out@ =~= b + fc + oc + ibs + le32(oft64 as u32) + le32(ioff64 as u32) + le32(
                ibs.len() as u32,
            ) + table_magic());
            assert(out@ == table_bytes(blocks0, fsb, iv));
        }
        *self = TableBuilder::new();
        Some(out)
    }

    /// Cuts the pending block for `done`, carrying just the facts `done`
    /// needs forward.
    #[verifier::rlimit(100)]
    fn cut_for_done(&mut self) -> (r: bool)
        requires
            old(self).wf(),
            old(self).spec_curr().len() > 0,
        ensures
            final(self).wf(),
            r <==> old(self).spec_can_cut(),
            !r ==> *final(self) == *old(self),
            r ==> final(self).spec_curr().len() == 0,
            r ==> final(self).spec_blocks() == old(self).spec_blocks().push(old(self).spec_curr()),
            r ==> old(self).spec_done_ok() == (old(self).spec_can_cut()
                && final(self).spec_assemble_fits()),
    {
        let ghost self0 = *self;
        let r = self.finish_curr_data_block();
        proof {
            if r {
                lemma_done_bridge(self0, *self);
            }
        }
        r
    }

    /// Finalizes the table: flushes any pending block, then writes the
    /// filter section, its offset table, the index block, and the footer;
    /// the builder resets for reuse either way. `None` exactly when a
    /// section would not fit the format's 32-bit offsets. Called with no
    /// pending entries it yields an empty, well-formed artifact.
    #[verifier::rlimit(100)]
    pub fn done(&mut self) -> (r: Option<Vec<u8>>)
        requires
            old(self).wf(),
        ensures
            final(self).wf(),
            final(self).spec_pairs() == Seq::<(Seq<u8>, Seq<u8>)>::empty(),
            r is Some <==> old(self).spec_done_ok(),
            r matches Some(v) ==> exists|fs: Seq<Seq<u8>>|
                #![trigger filters_cover(fs, old(self).spec_groups_at_done())]
                filters_cover(fs, old(self).spec_groups_at_done()) && v@ == table_bytes(
                    old(self).spec_groups_at_done(),
                    fs,
                    BLOCK_RESTART_INTERVAL as int,
                ),
    {
        let ghost iv = BLOCK_RESTART_INTERVAL as int;
        let ghost self0 = *self;
        proof {
            if self0.spec_curr().len() == 0 {
                lemma_done_no_cut(self0);
            }
        }
        if self.curr_keys.len() > 0 {
            proof {
                assert(self.data_builder.spec_entries().len() == self.curr_keys@.len());
            }
            if !self.cut_for_done() {
                *self = TableBuilder::new();
                proof {
                    lemma_done_needs_cut(self0);
                }
                return None;
            }
        }
        let ghost mid = *self;
        let r = self.assemble();
        proof {
            let groups = self0.spec_groups_at_done();
            assert(mid.spec_blocks() == groups);
            if r is Some {
                let fs = choose|fs: Seq<Seq<u8>>|
                    #![trigger filters_cover(fs, mid.spec_blocks())]
                    filters_cover(fs, mid.spec_blocks()) && r.unwrap()@ == table_bytes(
                        mid.spec_blocks(),
                        fs,
                        BLOCK_RESTART_INTERVAL as int,
                    );
                assert(filters_cover(fs, groups) && r.unwrap()@ == table_bytes(
                    groups,
                    fs,
                    BLOCK_RESTART_INTERVAL as int,
                ));
            }
        }
        r
    }

}

/// Key and value sizes are bounded by the payload that encodes them: each
/// entry stores its value and its key's non-shared suffix, and the shared
/// part is part of the previous key.
pub proof fn lemma_key_bound(entries: Seq<(Seq<u8>, Seq<u8>)>, i: int, iv: int)
    requires
        0 <= i < entries.len(),
        iv >= 1,
    ensures
        payload_from(entries, i + 1, iv).len() <= payload_from(entries, 0, iv).len(),
        entries[i].0.len() + entries[i].1.len() <= payload_from(entries, 0, iv).len()
            - payload_from(entries, i + 1, iv).len(),
    decreases i,
{
    let sh = shared_at(entries, i, iv);
    let key = entries[i].0;
    let val = entries[i].1;
    let eb = entry_bytes(sh, key, val);
    assert(payload_from(entries, i, iv) == eb + payload_from(entries, i + 1, iv));
    lemma_varint_len(sh);
    lemma_varint_len((key.len() - sh) as nat);
    lemma_varint_len(val.len());
    if i > 0 && !(i % iv == 0) {
        lemma_lcp_props(entries[i - 1].0, key);
    }
    assert(sh <= key.len());
    assert(eb.len() >= (key.len() - sh) + val.len());
    if i == 0 {
        assert(sh == 0);
        lemma_payload_prefix(entries, 1, iv);
    } else {
        lemma_key_bound(entries, i - 1, iv);
        if !(i % iv == 0) {
            assert(sh <= entries[i - 1].0.len());
        }
    }
}

} // verus!
