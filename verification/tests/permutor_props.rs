use std::collections::HashSet;

use smallperm::feistel::{u64_to_32slice, Permutor};

/// Collect the full iteration of a fresh permutor.
fn full_sequence(max: u128, key: u64) -> Vec<u128> {
    let mut p = Permutor::new_with_u64_key(max, key);
    let mut out = Vec::new();
    while let Some(v) = p.next() {
        out.push(v);
    }
    out
}

#[test]
fn test_single_element() {
    // With capacity 1 the only permutation is the identity on [0].
    let mut p = Permutor::new_with_u64_key(1, 0xFEED);
    assert_eq!(p.next(), Some(0));
    assert_eq!(p.next(), None);
    let p = Permutor::new_with_u64_key(1, 0xFEED);
    assert_eq!(p.forward(0), 0);
    assert_eq!(p.backward(0), 0);
}

#[test]
fn test_two_elements() {
    let seq = full_sequence(2, 0xBEEF);
    assert!(seq == vec![0, 1] || seq == vec![1, 0], "not a permutation of [0, 2): {:?}", seq);
}

#[test]
fn test_ten_with_key_42() {
    let seq = full_sequence(10, 42);
    let seen: HashSet<u128> = seq.iter().copied().collect();
    assert_eq!(seen.len(), 10);
    for v in 0..10u128 {
        assert!(seen.contains(&v), "value {} missing", v);
    }
}

#[test]
fn test_million_bounded_complete_and_roundtrips() {
    let max: u128 = 1_000_000;
    let mut p = Permutor::new_with_u64_key(max, 7);
    let mut count: u128 = 0;
    while let Some(v) = p.next() {
        assert!(v < max, "value {} out of range", v);
        count += 1;
    }
    assert_eq!(count, max);

    let p = Permutor::new_with_u64_key(max, 7);
    let mut state: u64 = 0x1234_5678_9abc_def0;
    for _ in 0..1000 {
        state = state.wrapping_mul(6364136223846793005).wrapping_add(1442695040888963407);
        let k = (state as u128) % max;
        let f = p.forward(k);
        assert!(f < max);
        assert_eq!(p.backward(f), k, "roundtrip failed for {}", k);
    }
}

#[test]
fn test_key_zero_vs_key_one() {
    let a = full_sequence(256, 0);
    let b = full_sequence(256, 1);
    let seen_a: HashSet<u128> = a.iter().copied().collect();
    let seen_b: HashSet<u128> = b.iter().copied().collect();
    assert_eq!(seen_a.len(), 256);
    assert_eq!(seen_b.len(), 256);
    assert!(seen_a.iter().all(|&v| v < 256));
    assert!(seen_b.iter().all(|&v| v < 256));
    assert_ne!(a, b, "different keys gave the identical sequence");
}

#[test]
fn test_boundary_two_to_the_64() {
    let max: u128 = 1u128 << 64;
    let p = Permutor::new_with_u64_key(max, 0xC0FFEE);
    let first = p.forward(0);
    let last = p.forward(max - 1);
    assert!(first < max);
    assert!(last < max);
    assert_eq!(p.backward(first), 0);
    assert_eq!(p.backward(last), max - 1);
}

#[test]
fn test_roundtrip_both_directions() {
    let max: u128 = 1000;
    let p = Permutor::new_with_u64_key(max, 123);
    for k in 0..max {
        let f = p.forward(k);
        assert!(f < max);
        assert_eq!(p.backward(f), k, "backward(forward({})) != {}", k, k);
        let b = p.backward(k);
        assert!(b < max);
        assert_eq!(p.forward(b), k, "forward(backward({})) != {}", k, k);
    }
}

#[test]
fn test_iterator_matches_forward() {
    let max: u128 = 50;
    let mut it = Permutor::new_with_u64_key(max, 5);
    let maps = Permutor::new_with_u64_key(max, 5);
    for i in 0..max {
        assert_eq!(it.next(), Some(maps.forward(i)), "iterator diverged at {}", i);
    }
    assert_eq!(it.next(), None);
    assert_eq!(it.next(), None);
}

#[test]
fn test_determinism() {
    let a = full_sequence(300, 0xABCD);
    let b = full_sequence(300, 0xABCD);
    assert_eq!(a, b);
}

#[test]
fn test_constructors_agree() {
    // The 64-bit constructor whitens the key and expands it big-endian.
    let key: u64 = 0x1122_3344_5566_7788;
    let expanded = u64_to_32slice(key ^ 0xDEADBEEF_FEE1DEAD);
    let a = full_sequence(64, key);
    let mut p = Permutor::new_with_slice_key(64, expanded);
    let mut b = Vec::new();
    while let Some(v) = p.next() {
        b.push(v);
    }
    assert_eq!(a, b);
}

#[test]
fn test_forward_does_not_advance_cursor() {
    let max: u128 = 20;
    let mut p = Permutor::new_with_u64_key(max, 9);
    let reference = full_sequence(max, 9);
    assert_eq!(p.next(), Some(reference[0]));
    for k in 0..max {
        let _ = p.forward(k);
        let _ = p.backward(k);
    }
    assert_eq!(p.next(), Some(reference[1]), "forward or backward advanced the cursor");
    assert_eq!(p.values_returned, 2);
}

#[test]
fn test_bijection_various_sizes() {
    for &(max, key) in &[(1u128, 3u64), (2, 3), (3, 3), (7, 0), (100, 99), (65536, 1)] {
        let seq = full_sequence(max, key);
        assert_eq!(seq.len() as u128, max);
        let seen: HashSet<u128> = seq.iter().copied().collect();
        assert_eq!(seen.len() as u128, max, "repeats for max {}", max);
        assert!(seen.iter().all(|&v| v < max), "out of range for max {}", max);
    }
}

#[test]
fn test_clone_restarts_iteration() {
    let mut p = Permutor::new_with_u64_key(30, 77);
    let mut first = Vec::new();
    while let Some(v) = p.next() {
        first.push(v);
    }
    let mut q = p.clone();
    q.values_returned = 0;
    let mut second = Vec::new();
    while let Some(v) = q.next() {
        second.push(v);
    }
    assert_eq!(first, second);
}
