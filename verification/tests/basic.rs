use lsm_core::utils::hash;
use lsm_core::bloomfilter::BloomFilter;
use lsm_core::skiplist::SkipList;

#[test]
fn test_hash() {
    let mut data = [0u8; 256];
    for i in 0..256 {
        data[i as usize] = i as u8;
    }
    assert_eq!(hash(&data[..253]), 2051157055u32);
    assert_eq!(hash(&data[..254]), 1438051173u32);
    assert_eq!(hash(&data[..255]), 3737913649u32);
    assert_eq!(hash(&data[..]), 1306983376u32);
}

#[test]
fn test_bloomfilter() {
    let mut keys = vec![];
    let limit: u32 = 100000;
    for i in (0..limit).step_by(2) {
        keys.push(i.to_string().into_bytes());
    }
    let bf = BloomFilter::new(&keys);
    let mut fp = 0.0f32;
    for i in 0..limit {
        let found = bf.key_may_match(&i.to_string().into_bytes());
        if i % 2 == 0 {
            assert_eq!(found, i % 2 == 0);
        } else {
            fp += found as u8 as f32;
        }
    }
    let fp_ratio = fp / (limit as f32);
    assert!(fp_ratio < 0.008);
}

#[test]
fn test_skiplist_ops() {
    let mut l = SkipList::new(4);
    l.insert(b"50".to_vec(), b"50".to_vec());
    for i in 0..20u32 {
        let k = (i * 7 % 100).to_string().into_bytes();
        l.insert(k.clone(), k);
    }
    assert_eq!(l.get(&b"50".to_vec()).map(|v| v.clone()), Some(b"50".to_vec()));
    l.delete(&b"50".to_vec());
    assert_eq!(l.get(&b"50".to_vec()), None);
    let keys = l.keys_in_order();
    for w in keys.windows(2) {
        assert!(w[0] < w[1]);
    }
}
