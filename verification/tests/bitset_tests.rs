use divisor_db::bitset::{
    bit_vote, cast_vote, generate, ones_majority, set_bit, word_hashes, zeroed, GENERATOR_SEED,
};
use rand::{Rng, SeedableRng};
use std::hash::{Hash, Hasher};

fn words(items: &[&str]) -> Vec<String> {
    items.iter().map(|s| s.to_string()).collect()
}

fn expected_hash(seed: u32, word: &String) -> u64 {
    let mut hasher = fnv::FnvHasher::default();
    seed.hash(&mut hasher);
    word.hash(&mut hasher);
    hasher.finish()
}

fn expected_bitset(dict: &[String], bytes_avail: usize) -> Vec<u8> {
    let mut rng: mersenne_twister::MT19937 = SeedableRng::from_seed(19650218u32);
    let mut out = vec![0u8; bytes_avail];
    for bit_index in 0..bytes_avail {
        let seed = rng.next_u32();
        let mut more_zeros = 0;
        let mut more_ones = 0;
        for word in dict {
            if expected_hash(seed, word).count_ones() < 16 {
                more_zeros += 1;
            } else {
                more_ones += 1;
            }
        }
        if more_zeros < more_ones {
            out[bit_index / 8] |= 1 << (bit_index % 8);
        }
    }
    out
}

#[test]
fn majority_counts_one_bits() {
    assert!(!ones_majority(&[]));
    assert!(ones_majority(&[0xFFFF]));
    assert!(!ones_majority(&[0x7FFF]));
    assert!(!ones_majority(&[0x1_0000]));
    assert!(!ones_majority(&[1 << 63]));
    assert!(ones_majority(&[u64::MAX]));
    assert!(ones_majority(&[0xFFFF_0000_0000_0000]));
}

#[test]
fn majority_needs_more_ones_than_zeros() {
    assert!(!ones_majority(&[u64::MAX, 0]));
    assert!(ones_majority(&[u64::MAX, 0, u64::MAX]));
    assert!(!ones_majority(&[u64::MAX, 0, 0]));
    assert!(!ones_majority(&[0, 1, 3, 7]));
}

#[test]
fn zeroed_is_all_clear() {
    assert_eq!(zeroed(0), Vec::<u8>::new());
    assert_eq!(zeroed(5), vec![0, 0, 0, 0, 0]);
}

#[test]
fn set_bit_sets_one_bit() {
    let mut out = zeroed(3);
    set_bit(&mut out, 0);
    assert_eq!(out, vec![1, 0, 0]);
    set_bit(&mut out, 7);
    assert_eq!(out, vec![0x81, 0, 0]);
    set_bit(&mut out, 8);
    set_bit(&mut out, 21);
    assert_eq!(out, vec![0x81, 1, 0x20]);
    set_bit(&mut out, 21);
    assert_eq!(out, vec![0x81, 1, 0x20]);
}

#[test]
fn cast_vote_sets_the_bit_where_ones_win() {
    let mut out = zeroed(2);
    cast_vote(&mut out, 3, &[u64::MAX]);
    assert_eq!(out, vec![8, 0]);
    cast_vote(&mut out, 4, &[0]);
    assert_eq!(out, vec![8, 0]);
    cast_vote(&mut out, 3, &[0]);
    assert_eq!(out, vec![8, 0]);
    cast_vote(&mut out, 15, &[u64::MAX, u64::MAX, 1]);
    assert_eq!(out, vec![8, 0x80]);
}

#[test]
fn word_hashes_follow_the_dictionary() {
    let dict = words(&["alpha", "beta", "", "alpha"]);
    let hashes = word_hashes(77, &dict);
    assert_eq!(hashes.len(), 4);
    for (hash, word) in hashes.iter().zip(dict.iter()) {
        assert_eq!(*hash, expected_hash(77, word));
    }
    assert_eq!(hashes[0], hashes[3]);
    assert_ne!(hashes[0], hashes[1]);
    assert_ne!(word_hashes(78, &dict)[0], hashes[0]);
    assert_eq!(word_hashes(5, &Vec::new()), Vec::<u64>::new());
}

#[test]
fn bit_vote_is_the_majority_of_the_word_hashes() {
    let dict = words(&["alpha", "beta", "gamma"]);
    for seed in [0u32, 1, 19650218, u32::MAX] {
        assert_eq!(bit_vote(seed, &dict), ones_majority(&word_hashes(seed, &dict)));
    }
    assert!(!bit_vote(3, &Vec::new()));
}

#[test]
fn generate_follows_the_seed_sequence() {
    assert_eq!(GENERATOR_SEED, 19650218);
    let dict = words(&["alpha", "beta", "gamma", "delta", "epsilon"]);
    for bytes_avail in [0usize, 1, 7, 8, 9, 64, 200] {
        assert_eq!(generate(&dict, bytes_avail), expected_bitset(&dict, bytes_avail));
    }
}

#[test]
fn generate_votes_only_on_as_many_bits_as_bytes() {
    let dict = words(&["alpha", "beta", "gamma"]);
    let out = generate(&dict, 40);
    assert_eq!(out.len(), 40);
    assert!(out[5..].iter().all(|b| *b == 0));
    assert!(out[..5].iter().any(|b| *b != 0));
}

#[test]
fn generate_with_an_empty_dictionary_is_all_clear() {
    assert_eq!(generate(&Vec::new(), 16), vec![0u8; 16]);
}
