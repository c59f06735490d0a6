use lsm_kv::bloom_filter::{BloomFilter, IndexT};
use rand::Rng;

#[test]
fn test_bloom() {
    let mut b = BloomFilter::new(3, 128, 1);
    b.set_bit(0);
    let temp: Option<bool> = b.get_bit(0);
    let temp1: Option<bool> = b.get_bit(1);
    assert!(temp == Some(true));
    assert!(temp1 == Some(false));
}

#[test]
fn test_hash() {
    let test_keys: [IndexT; 6] = [0, 1, 2, 3, 13, 97];
    let b = BloomFilter::new(3, 128, 1);
    b.hash1(1);
    assert_eq!(b.hash1(test_keys[0]), 8633297058295171728);
    assert_eq!(b.hash1(test_keys[5]), 14582706179898628597);
}

#[test]
fn test_bloom_basic() {
    let mut b: BloomFilter = BloomFilter::new(3, 1000, 1);
    for k in 0..71 {
        b.bloom_add(k);
    }
    println!(
        "Test of check: \n key present  {0} \n key absent {1} \n",
        b.bloom_check(1),
        b.bloom_check(71)
    );
    assert!(b.bloom_check(1));
}

#[test]
fn test_bloom_occupancy() {
    let size_bits: IndexT = 1000000;
    let mut b: BloomFilter = BloomFilter::new(7, size_bits, 1);
    for k in 1..size_bits {
        b.bloom_add(k);
    }
}

#[test]
fn test_bloom_false_positive() {
    let size_bits: IndexT = 1000000;
    let mut b: BloomFilter = BloomFilter::new(7, size_bits, 1);
    let rand_max: IndexT = 100000000;
    let top: IndexT = 100000;
    let mut test_occurences: IndexT = 0;
    let mut occurences: IndexT = 0;
    let mut rng = rand::thread_rng();
    for _i in 1..(top + 1) {
        let r: IndexT = rng.gen_range(0..rand_max);
        b.bloom_add(r);
        if b.bloom_check(r) {
            test_occurences = test_occurences + 1;
        }
    }
    println!("Test occurences : {0} / 100", test_occurences);
    assert_eq!(top, test_occurences);

    for _i in 1..(top + 1) {
        let r: IndexT = rng.gen_range(0..rand_max);
        if b.bloom_check(r) {
            occurences = occurences + 1;
        }
    }

    println!("Occupancy: {0} bits false positives: {1}", b.count, occurences);
}

#[test]
fn bloom_no_false_negatives_after_more_adds() {
    let mut b = BloomFilter::new_with_size(4096);
    for k in 0..200u64 {
        b.bloom_add(k * 7919);
    }
    for k in 0..200u64 {
        assert!(b.bloom_check(k * 7919));
    }
}

#[test]
fn bloom_false_positive_rate_within_bound() {
    // 10 bits per key and 5 probes: the expected rate is about one percent
    let keys: u64 = 10000;
    let mut b = BloomFilter::new(5, keys * 10, 0);
    let mut rng = rand::thread_rng();
    let mut added: Vec<u64> = Vec::new();
    for _ in 0..keys {
        let k: u64 = rng.gen_range(0..(1u64 << 40));
        b.bloom_add(k);
        added.push(k);
    }
    let mut fp: u64 = 0;
    let trials: u64 = 20000;
    for _ in 0..trials {
        let k: u64 = rng.gen_range((1u64 << 41)..(1u64 << 42));
        if b.bloom_check(k) {
            fp += 1;
        }
    }
    assert!(fp * 100 < trials * 5, "false positives: {} of {}", fp, trials);
}

#[test]
fn bloom_empty_filter_rejects_everything() {
    let b = BloomFilter::new_with_size(64);
    for k in 0..100u64 {
        assert!(!b.bloom_check(k));
    }
    assert_eq!(64, b.size);
}

#[test]
fn bloom_count_grows_with_new_bits_only() {
    let mut b = BloomFilter::new(3, 128, 0);
    b.bloom_add(42);
    let first = b.count;
    assert!(first >= 1 && first <= 3);
    b.bloom_add(42);
    assert_eq!(first, b.count);
}

#[test]
fn bloom_hash_functions_are_stable() {
    let b = BloomFilter::new_init();
    assert_eq!(b.hash1(0), 8633297058295171728);
    assert_eq!(b.hash3(0), b.hash3(0));
    assert_ne!(b.hash2(1), b.hash2(2));
    assert_eq!(10000000, b.size);
}
