use prism_ann::distance::{from_ord_key, hamming, l2_sq8, ord_key};

#[test]
fn test_l2_sq8() {
    let a: Vec<u8> = vec![10, 20, 30, 40];
    let b: Vec<u8> = vec![11, 22, 27, 45];
    assert_eq!(l2_sq8(&a, &b), 39);
}

#[test]
fn test_hamming() {
    let distance: u64 = hamming(&[0b1010], &[0b1001]);
    assert_eq!(distance, 2);
    assert_eq!(hamming(&[0, 0], &[0, 0]), 0);
    assert_eq!(hamming(&[u64::MAX], &[0]), 64);
    assert_eq!(hamming(&[u64::MAX, 0], &[0, u64::MAX]), 128);
}

#[test]
fn ord_key_is_monotone_across_signs() {
    let vals = [-1e9f32, -100.0, -1.5, -0.0, 0.0, 1e-10, 3.0, 1e9];
    for w in vals.windows(2) {
        assert!(
            ord_key(w[0].to_bits()) <= ord_key(w[1].to_bits()),
            "ord_key({}) > ord_key({})",
            w[0],
            w[1]
        );
    }
    assert!(ord_key((-1.0f32).to_bits()) < ord_key(1.0f32.to_bits()));
    for value in vals {
        assert_eq!(from_ord_key(ord_key(value.to_bits())), value.to_bits());
    }
}

#[test]
fn ord_key_orders_like_the_total_order_of_floats() {
    let vals = [
        f32::NEG_INFINITY,
        f32::MIN,
        -f32::from_bits(1),
        -0.0,
        0.0,
        f32::from_bits(1),
        f32::MAX,
        f32::INFINITY,
        f32::NAN,
    ];
    for a in vals {
        for b in vals {
            let keys = ord_key(a.to_bits()) <= ord_key(b.to_bits());
            assert_eq!(keys, a.total_cmp(&b).is_le(), "{a} against {b}");
        }
    }
}

#[test]
fn test_l2_sq8_large() {
    let dim = 128;
    let a: Vec<u8> = (0..dim).map(|i| i as u8).collect();
    let b: Vec<u8> = (0..dim).map(|i| (i as u8).wrapping_add(1)).collect();
    assert_eq!(l2_sq8(&a, &b), 128);
}

#[test]
fn l2_sq8_does_not_overflow_u32_boundary() {
    let dim = u32::MAX as usize / (255 * 255) + 1;
    let a = vec![0u8; dim];
    let b = vec![255u8; dim];
    let expected = dim as u64 * 255u64 * 255u64;
    assert!(expected > u32::MAX as u64);
    assert_eq!(l2_sq8(&a, &b), expected);
}
