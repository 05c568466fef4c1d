use festival_pallets::dispatch::{account_of_pallet, fits_limit, next_id};
use festival_pallets::hashing::{blake2_128, encode_seed_payload};

#[test]
fn payload_encoding_bytes() {
    let seed = [1u8; 32];
    let bytes = encode_seed_payload(&seed, 0x0102_0304, Some(5));
    let mut expected = vec![1u8; 32];
    expected.extend_from_slice(&[4, 3, 2, 1, 1, 5, 0, 0, 0]);
    assert_eq!(bytes, expected);
    let bytes = encode_seed_payload(&[7u8; 32], 0, None);
    let mut expected = vec![7u8; 32];
    expected.extend_from_slice(&[0, 0, 0, 0, 0]);
    assert_eq!(bytes, expected);
}

#[test]
fn blake2_128_known_values() {
    assert_eq!(blake2_128(b""), vec![202, 230, 105, 65, 217, 239, 189, 64, 78, 77, 136, 117, 142, 166, 118, 112]);
    assert_eq!(blake2_128(b"abc"), vec![207, 74, 183, 145, 198, 43, 141, 43, 33, 9, 201, 2, 117, 40, 120, 22]);
}

#[test]
fn pallet_account_bytes() {
    let id = *b"festival";
    let expected = u64::from_le_bytes([b'm', b'o', b'd', b'l', b'f', b'e', b's', b't']);
    assert_eq!(account_of_pallet(id), expected);
}

#[test]
fn bounds_and_counters() {
    assert!(fits_limit(&vec![0u8; 3], 3));
    assert!(!fits_limit(&vec![0u8; 4], 3));
    assert_eq!(next_id(4), Some(5));
    assert_eq!(next_id(u32::MAX), None);
}
