use arida::utils::{
    bid_from, bid_to_u128, bytes_to_u64, nid_from, u128_to_bytes, u64_to_bytes, uid_from,
};

#[test]
fn uid_from_is_twelve_id_chars() {
    for (rd, ns) in [(0u64, 0u32), (u64::MAX, 999_999_999), (0x0123_4567_89ab_cdef, 12345)] {
        let id = uid_from(rd, ns);
        assert_eq!(id.len(), 12);
        assert!(id.chars().all(|c| c.is_ascii_alphanumeric() || c == '-' || c == '_'));
    }
    assert_ne!(uid_from(1, 0), uid_from(2, 0));
    assert_ne!(uid_from(1, 0), uid_from(1, 1));
}

#[test]
fn uid_from_zero_is_all_a() {
    assert_eq!(uid_from(0, 0), "aaaaaaaaaaaa");
}

#[test]
fn uid_from_maps_each_six_bits_lowest_first() {
    // groups of rd, lowest first: 1, 2, 26, 52, 62, 63, 0; ns = 5
    assert_eq!(uid_from(68699660417, 5), "bcA0-_afaaaa");
}

#[test]
fn nid_from_puts_low_rand_bits_above_nanos() {
    assert_eq!(nid_from(0x1_2345_6789, 5), 0x2345_6789_0000_0005);
    assert_eq!(nid_from(0, 999_999_999), 999_999_999);
}

#[test]
fn bid_from_is_time_then_rand_big_endian() {
    assert_eq!(
        bid_from(0x0102_0304, 0x0506_0708_090a_0b0c),
        [1, 2, 3, 4, 5, 6, 7, 8, 9, 10, 11, 12]
    );
}

#[test]
fn u64_bytes_exact_and_round_trip() {
    assert_eq!(u64_to_bytes(0x0102_0304_0506_0708), [1, 2, 3, 4, 5, 6, 7, 8]);
    assert_eq!(bytes_to_u64(&[0, 0, 0, 0, 0, 0, 1, 0]), 256);
    assert_eq!(bytes_to_u64(&[255; 8]), u64::MAX);
    for n in [0u64, 1, 255, 256, 0xdead_beef, u64::MAX] {
        assert_eq!(bytes_to_u64(&u64_to_bytes(n)), n);
    }
}

#[test]
fn u128_id_bytes_exact_and_round_trip() {
    assert_eq!(
        u128_to_bytes(0x0102_0304_0506_0708_090a_0b0c),
        [1, 2, 3, 4, 5, 6, 7, 8, 9, 10, 11, 12]
    );
    // only the twelve low-order bytes are kept
    assert_eq!(u128_to_bytes(u128::MAX), [255; 12]);
    assert_eq!(bid_to_u128(&[0, 0, 0, 0, 0, 0, 0, 0, 0, 0, 1, 2]), 258);
    assert_eq!(bid_to_u128(&u128_to_bytes(u128::MAX)), (1u128 << 96) - 1);
    let id = [9u8, 8, 7, 6, 5, 4, 3, 2, 1, 0, 255, 128];
    assert_eq!(u128_to_bytes(bid_to_u128(&id)), id);
}
