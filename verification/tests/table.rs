use lsm_core::sstable::{Block, BlockBuilder, TableBuilder, decode_entries};
use lsm_core::bloomfilter::BloomFilter;
use lsm_core::codec::{get_u32_le, get_varint};

fn build_table(pairs: &[(Vec<u8>, Vec<u8>)]) -> Vec<u8> {
    let mut tb = TableBuilder::new();
    for (k, v) in pairs {
        assert!(tb.add(k, v));
    }
    tb.done().expect("table within format limits")
}

/// Walks a finished table: checks the footer, decodes the index block, every
/// data block and every filter, and returns all pairs plus the block count.
fn decode_table(table: &Vec<u8>) -> (Vec<(Vec<u8>, Vec<u8>)>, usize) {
    let n = table.len();
    assert!(n >= 16);
    assert_eq!(&table[n - 4..], b"TBL1");
    let oft = get_u32_le(table, n - 16) as usize;
    let ioff = get_u32_le(table, n - 12) as usize;
    let ilen = get_u32_le(table, n - 8) as usize;
    assert!(oft <= ioff);
    assert!(ioff + ilen <= n - 16);
    let iblock = Block::load(&table[ioff..ioff + ilen].to_vec()).expect("index block");
    let ientries = decode_entries(&iblock.data).expect("index entries");
    let nfilters = (ioff - oft) / 4;
    assert_eq!(ientries.len(), nfilters);
    let mut all = vec![];
    for (bi, (last_key, loc)) in ientries.iter().enumerate() {
        let (off, p) = get_varint(loc, 0).expect("offset varint");
        let (len, _) = get_varint(loc, p).expect("length varint");
        let (off, len) = (off as usize, len as usize);
        assert!(off + len <= oft);
        let blk = Block::load(&table[off..off + len].to_vec()).expect("data block");
        let entries = decode_entries(&blk.data).expect("data entries");
        assert!(!entries.is_empty());
        assert_eq!(&entries.last().unwrap().0, last_key);
        let fo = get_u32_le(table, oft + 4 * bi) as usize;
        let flen = get_u32_le(table, fo) as usize;
        let fbytes = table[fo + 4..fo + 4 + flen].to_vec();
        let filter = BloomFilter::deserialize(&fbytes).expect("filter");
        for (k, _) in &entries {
            assert!(filter.key_may_match(k));
        }
        all.extend(entries);
    }
    (all, ientries.len())
}

#[test]
fn test_table_builder() {
    let mut keys = vec![];
    let limit = 100;
    for i in 0..limit {
        keys.push(i.to_string().into_bytes());
    }
    keys.sort();
    let pairs: Vec<(Vec<u8>, Vec<u8>)> = keys.iter().map(|k| (k.clone(), k.clone())).collect();
    let table = build_table(&pairs);
    let (decoded, nblocks) = decode_table(&table);
    assert!(nblocks >= 1);
    assert_eq!(decoded, pairs);
}

#[test]
fn test_table_multiple_blocks() {
    let mut keys = vec![];
    for i in 0..100 {
        keys.push(format!("{:04}", i).into_bytes());
    }
    keys.sort();
    let pairs: Vec<(Vec<u8>, Vec<u8>)> =
        keys.iter().map(|k| (k.clone(), vec![7u8; 100])).collect();
    let table = build_table(&pairs);
    let (decoded, nblocks) = decode_table(&table);
    assert!(nblocks > 1);
    assert_eq!(decoded, pairs);
}

#[test]
fn test_table_empty() {
    let mut tb = TableBuilder::new();
    let table = tb.done().expect("empty table");
    let (decoded, nblocks) = decode_table(&table);
    assert_eq!(nblocks, 0);
    assert!(decoded.is_empty());
}

#[test]
fn test_block_round_trip() {
    let mut b = BlockBuilder::new(16);
    let mut pairs = vec![];
    for i in 0..40 {
        let k = format!("key{:03}", i).into_bytes();
        let v = format!("value{}", i * i).into_bytes();
        b.add(&k, &v);
        pairs.push((k, v));
    }
    let bytes = b.done();
    let blk = Block::load(&bytes).expect("block loads");
    let entries = decode_entries(&blk.data).expect("entries decode");
    assert_eq!(entries, pairs);
    assert!(!blk.restarts.is_empty());
}

#[test]
fn test_block_corruption_detected() {
    let mut b = BlockBuilder::new(16);
    for i in 0..20 {
        let k = format!("k{:02}", i).into_bytes();
        b.add(&k, &k);
    }
    let bytes = b.done();
    assert!(Block::load(&bytes).is_some());
    // flipping any single byte of the checksummed region is detected
    for pos in 0..bytes.len() - 4 {
        let mut bad = bytes.clone();
        bad[pos] ^= 0x40;
        assert!(Block::load(&bad).is_none(), "corruption at {} not detected", pos);
    }
}

#[test]
fn test_bloom_serialize_round_trip() {
    let keys: Vec<Vec<u8>> = (0..500u32).map(|i| i.to_string().into_bytes()).collect();
    let f = BloomFilter::new(&keys);
    let bytes = f.serialize();
    let g = BloomFilter::deserialize(&bytes).expect("deserializes");
    for i in 0..1000u32 {
        let k = i.to_string().into_bytes();
        assert_eq!(f.key_may_match(&k), g.key_may_match(&k));
        if i < 500 {
            assert!(g.key_may_match(&k));
        }
    }
}
