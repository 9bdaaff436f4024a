use infralens::storage::bloom::{BloomFilter, MAX_HASHES, MIN_BITS};
use std::hash::{Hash, Hasher};

/// A filter for a number of items at a rate of false positives.
fn sized(expected_items: u64, fp_rate: f64) -> BloomFilter {
    let m = (-(expected_items as f64) * fp_rate.ln() / (2f64.ln().powi(2))).ceil() as u64;
    let bits = m.max(MIN_BITS);
    let hashes = ((bits as f64 / expected_items as f64) * 2f64.ln()).ceil() as u32;
    BloomFilter::new(bits, hashes)
}

#[test]
fn no_false_negatives() {
    let mut bf = sized(1000, 0.01);
    let keys: Vec<String> = (0..500).map(|i| format!("key-{i}")).collect();
    for k in &keys {
        bf.insert(k.as_bytes());
    }
    for k in &keys {
        assert!(bf.contains(k.as_bytes()), "false negative for {k}");
    }
}

#[test]
fn reasonable_fp_rate() {
    let mut bf = sized(1000, 0.05);
    for i in 0..1000u64 {
        bf.insert(&i.to_le_bytes());
    }
    let mut fp = 0u32;
    for i in 1000..2000u64 {
        if bf.contains(&i.to_le_bytes()) {
            fp += 1;
        }
    }
    assert!((fp as f64 / 1000.0) < 0.10, "FP rate too high: {fp}/1000");
}

#[test]
fn serialise_roundtrip() {
    let mut bf = sized(100, 0.01);
    bf.insert(b"hello");
    bf.insert(b"world");
    let bytes = bf.to_bytes();
    let bf2 = BloomFilter::from_bytes(&bytes).unwrap();
    assert!(bf2.contains(b"hello"));
    assert!(bf2.contains(b"world"));
    assert!(!bf2.contains(b"nothere_very_unique_xyzzy"));
}

#[test]
fn bloom_layout() {
    let bf = BloomFilter::new(100, 3);
    let bytes = bf.to_bytes();
    assert_eq!(bytes.len(), 12 + 13);
    assert_eq!(&bytes[0..8], &100u64.to_le_bytes());
    assert_eq!(&bytes[8..12], &3u32.to_le_bytes());
    assert!(bytes[12..].iter().all(|b| *b == 0));
}

#[test]
fn bloom_size_is_clamped() {
    let small = BloomFilter::new(1, 0).to_bytes();
    assert_eq!(&small[0..8], &64u64.to_le_bytes());
    assert_eq!(&small[8..12], &1u32.to_le_bytes());
    let many = BloomFilter::new(128, 99).to_bytes();
    assert_eq!(&many[8..12], &MAX_HASHES.to_le_bytes());
}

#[test]
fn bloom_rejects_short_input() {
    assert!(BloomFilter::from_bytes(&[0u8; 11]).is_none());
    let mut bytes = BloomFilter::new(100, 3).to_bytes();
    bytes.pop();
    assert!(BloomFilter::from_bytes(&bytes).is_none());
    bytes.push(0);
    bytes.push(7);
    let longer = BloomFilter::from_bytes(&bytes).unwrap();
    assert_eq!(longer.to_bytes().len(), 25);
}

#[test]
fn bloom_without_cells_is_not_usable() {
    let mut bytes = [0u8; 12];
    assert!(BloomFilter::from_bytes(&bytes).unwrap().is_usable());
    bytes[8] = 1;
    assert!(!BloomFilter::from_bytes(&bytes).unwrap().is_usable());
    assert!(BloomFilter::new(64, 2).is_usable());
}

#[test]
fn bloom_cells_of_one_key() {
    // One hash function sets one cell, and the cell depends on the key.
    let mut a = BloomFilter::new(1 << 16, 1);
    let mut b = BloomFilter::new(1 << 16, 1);
    a.insert(b"one");
    b.insert(b"two");
    let ones = |f: &BloomFilter| f.to_bytes()[12..].iter().map(|x| x.count_ones()).sum::<u32>();
    assert_eq!(ones(&a), 1);
    assert_eq!(ones(&b), 1);
    assert_ne!(a.to_bytes(), b.to_bytes());
}

#[test]
fn bloom_cell_follows_std_hasher() {
    let hash = |seed: u64| {
        let mut h = std::collections::hash_map::DefaultHasher::new();
        seed.hash(&mut h);
        b"k"[..].hash(&mut h);
        h.finish()
    };
    let mut f = BloomFilter::new(1000, 2);
    f.insert(b"k");
    let h1 = hash(0xcafe_f00d_dead_beef);
    let h2 = hash(1 ^ 0x0102_0304_0506_0708);
    let bytes = f.to_bytes();
    for cell in [h1 % 1000, h1.wrapping_add(h2) % 1000] {
        assert_ne!(bytes[12 + (cell / 8) as usize] & (1 << (cell % 8)), 0);
    }
}
