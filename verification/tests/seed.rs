use std::collections::HashSet;

use base58::ToBase58;
use exergon_core::seed::{derive_run_id, hash_text, DomainSeeds};

#[test]
fn hash_text_deterministic() {
    assert_eq!(hash_text("hello"), hash_text("hello"));
    assert_ne!(hash_text("hello"), hash_text("world"));
}

#[test]
fn derive_deterministic() {
    assert_eq!(exergon_core::seed::derive(42, "world"), exergon_core::seed::derive(42, "world"));
}

#[test]
fn derive_differs_by_domain() {
    assert_ne!(exergon_core::seed::derive(42, "world"), exergon_core::seed::derive(42, "power"));
}

#[test]
fn domain_seeds_all_distinct() {
    let s = DomainSeeds::from_master(12345);
    let vals: HashSet<u64> = [s.world, s.tech_tree, s.recipes, s.power, s.reactivity, s.biomes].into_iter().collect();
    assert_eq!(vals.len(), 6);
}

#[test]
fn run_id_is_base58_and_deterministic() {
    let a = derive_run_id(1_700_000_000);
    let b = derive_run_id(1_700_000_000);
    assert_eq!(a, b);
    assert!(!a.is_empty());
    assert!(a.chars().all(|c| !"0OIl".contains(c)));
}

#[test]
fn run_id_changes_with_input() {
    assert_ne!(derive_run_id(1), derive_run_id(2));
}

#[test]
fn hash_text_matches_xxh64_of_bytes() {
    assert_eq!(hash_text("hello"), xxhash_rust::xxh64::xxh64(b"hello", 0));
}

#[test]
fn derive_hashes_le_master_then_domain() {
    let mut buf = 7u64.to_le_bytes().to_vec();
    buf.extend_from_slice(b"biomes");
    assert_eq!(exergon_core::seed::derive(7, "biomes"), xxhash_rust::xxh64::xxh64(&buf, 0));
    assert_eq!(DomainSeeds::from_master(7).biomes, exergon_core::seed::derive(7, "biomes"));
}

#[test]
fn run_id_is_base58_of_digest_prefix() {
    let digest = blake3::hash(&99u64.to_le_bytes());
    assert_eq!(derive_run_id(99), digest.as_bytes()[..8].to_base58());
}

#[test]
fn run_id_spells_the_prefix_value_in_base58_digits() {
    const ALPHABET: &[u8] = b"123456789ABCDEFGHJKLMNPQRSTUVWXYZabcdefghijkmnopqrstuvwxyz";
    for t in [0u64, 1, 1_700_000_000, u64::MAX] {
        let digest = blake3::hash(&t.to_le_bytes());
        let prefix = &digest.as_bytes()[..8];
        let zeros = prefix.iter().take_while(|b| **b == 0).count();
        let mut v = u64::from_be_bytes(prefix.try_into().unwrap());
        let mut digits = Vec::new();
        while v > 0 {
            digits.push(ALPHABET[(v % 58) as usize] as char);
            v /= 58;
        }
        let expected: String = "1".repeat(zeros) + &digits.iter().rev().collect::<String>();
        assert_eq!(derive_run_id(t), expected);
    }
}
