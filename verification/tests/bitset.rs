//! The bitset that records which operations are linearized.
use porcupine::bitset::Bitset;

#[test]
fn test_set_clear() {
    let mut b = Bitset::new(128);
    b.set(0);
    b.set(63);
    b.set(64);
    b.set(127);
    assert_eq!(b.popcnt(), 4);
    b.clear(63);
    assert_eq!(b.popcnt(), 3);
}

#[test]
fn test_hash_deterministic() {
    let mut b1 = Bitset::new(64);
    let mut b2 = Bitset::new(64);
    b1.set(3);
    b1.set(7);
    b2.set(3);
    b2.set(7);
    assert_eq!(b1.hash(), b2.hash());
    assert_eq!(b1, b2);
}

#[test]
fn test_clone_independence() {
    let mut b1 = Bitset::new(64);
    b1.set(5);
    let mut b2 = b1.clone();
    b2.set(10);
    assert_eq!(b1.popcnt(), 1);
    assert_eq!(b2.popcnt(), 2);
}

#[test]
fn hash_is_popcount_xor_words() {
    let mut b = Bitset::new(128);
    b.set(1);
    b.set(65);
    // words: 0b10 and 0b10; popcount 2; 2 ^ 2 ^ 2 == 2.
    assert_eq!(b.hash(), 2);
    let empty = Bitset::new(10);
    assert_eq!(empty.hash(), 0);
}

#[test]
fn hash_with_bit_matches_hash_after_set() {
    let mut b = Bitset::new(130);
    b.set(3);
    b.set(100);
    let predicted = b.hash_with_bit(70);
    let mut c = b.clone();
    c.set(70);
    assert_eq!(predicted, c.hash());
    assert_ne!(predicted, b.hash());
}

#[test]
fn eq_with_bit_compares_as_if_bit_were_set() {
    let mut a = Bitset::new(64);
    a.set(1);
    let mut b = Bitset::new(64);
    b.set(1);
    b.set(9);
    assert!(a.eq_with_bit(9, &b));
    assert!(!a.eq_with_bit(8, &b));
    let longer = Bitset::new(128);
    assert!(!a.eq_with_bit(9, &longer));
}

#[test]
fn clear_undoes_set() {
    let mut b = Bitset::new(200);
    b.set(150);
    let before = Bitset::new(200);
    b.clear(150);
    assert_eq!(b, before);
    assert_eq!(b.popcnt(), 0);
}
