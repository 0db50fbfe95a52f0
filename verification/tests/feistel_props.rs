use smallperm::feistel::{u64_to_32slice, FeistelNetwork};

#[test]
fn test_key_expansion_bytes() {
    let key = u64_to_32slice(0x0102030405060708);
    assert_eq!(&key[..8], &[1u8, 2, 3, 4, 5, 6, 7, 8]);
    assert_eq!(&key[8..], &[0u8; 24]);

    let key = u64_to_32slice(u64::MAX);
    assert_eq!(&key[..8], &[0xffu8; 8]);
    assert_eq!(&key[8..], &[0u8; 24]);
}

#[test]
fn test_feistel_self_inverse_full_domain() {
    // Capacity 100 needs 7 bits, rounded up to an 8-bit block: the network
    // must be a bijection on all of [0, 256).
    let net = FeistelNetwork::new_with_slice_key(100, u64_to_32slice(0xDECAF));
    let domain = (net.left_mask | net.right_mask) + 1;
    assert_eq!(domain, 256);
    for x in 0..domain {
        let y = net.permute(x);
        assert!(y < domain);
        assert_eq!(net.invert(y), x, "invert(permute({})) != {}", x, x);
        let z = net.invert(x);
        assert_eq!(net.permute(z), x, "permute(invert({})) != {}", x, x);
    }
}

#[test]
fn test_feistel_parameters() {
    // Capacity 10 needs 4 bits: half width 2, right mask 0b11, left 0b1100.
    let net = FeistelNetwork::new_with_slice_key(10, u64_to_32slice(1));
    assert_eq!(net.half_width, 2);
    assert_eq!(net.right_mask, 0b11);
    assert_eq!(net.left_mask, 0b1100);
    // Small domains get more rounds: 8 + 60 / 4 = 23.
    assert_eq!(net.rounds, 23);

    // An odd bit length is rounded up: 2^64 needs 65 bits, width 66, and a
    // large domain gets the minimum 8 + 60 / 65 = 8 rounds.
    let net = FeistelNetwork::new_with_slice_key(1u128 << 64, u64_to_32slice(1));
    assert_eq!(net.half_width, 33);
    assert_eq!(net.rounds, 8);
}

#[test]
fn test_feistel_permutation_is_onto() {
    // Every domain value is hit exactly once.
    let net = FeistelNetwork::new_with_slice_key(200, u64_to_32slice(7));
    let domain = (net.left_mask | net.right_mask) + 1;
    let mut seen = vec![false; domain as usize];
    for x in 0..domain {
        let y = net.permute(x) as usize;
        assert!(!seen[y], "value {} produced twice", y);
        seen[y] = true;
    }
    assert!(seen.iter().all(|&b| b));
}
