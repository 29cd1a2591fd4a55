use mmr_forest::digest::{DeserializationError, HexParseError, RpoDigest, DIGEST_BYTES};
use mmr_forest::field::{Felt, MODULUS};
use winter_rand_utils::rand_value;

#[test]
fn digest_serialization() {
    let e1 = Felt::new(rand_value::<u64>());
    let e2 = Felt::new(rand_value::<u64>());
    let e3 = Felt::new(rand_value::<u64>());
    let e4 = Felt::new(rand_value::<u64>());

    let d1 = RpoDigest::new([e1, e2, e3, e4]);

    let mut bytes = vec![];
    d1.write_into(&mut bytes);
    assert_eq!(DIGEST_BYTES, bytes.len());

    let d2 = RpoDigest::read_from(&bytes).unwrap();

    assert_eq!(d1, d2);
}

#[test]
fn digest_byte_round_trip() {
    let d = RpoDigest::new([Felt::new(1), Felt::new(2), Felt::new(3), Felt::new(4)]);
    let bytes = d.as_bytes();
    assert_eq!(bytes[0], 1);
    assert_eq!(bytes[8], 2);
    assert_eq!(bytes[16], 3);
    assert_eq!(bytes[24], 4);
    assert!(bytes[1..8].iter().all(|b| *b == 0));
    assert_eq!(RpoDigest::try_from_bytes(&bytes), Ok(d));
}

#[test]
fn digest_decoding_rejects_short_input() {
    let bytes = [0u8; 31];
    assert_eq!(
        RpoDigest::read_from(&bytes),
        Err(DeserializationError::UnexpectedEnd)
    );
}

#[test]
fn digest_decoding_rejects_non_canonical_elements() {
    // all ones encodes u64::MAX, which lies above the modulus
    let bytes = [0xffu8; 32];
    assert_eq!(
        RpoDigest::read_from(&bytes),
        Err(DeserializationError::InvalidValue)
    );
    assert_eq!(RpoDigest::try_from_bytes(&bytes), Err(HexParseError::OutOfRange));
}

#[test]
fn digest_encoding() {
    let digest = RpoDigest::new([
        Felt::new(rand_value::<u64>()),
        Felt::new(rand_value::<u64>()),
        Felt::new(rand_value::<u64>()),
        Felt::new(rand_value::<u64>()),
    ]);

    let string: String = digest.to_hex();
    let round_trip: RpoDigest = RpoDigest::from_hex(&string).expect("decoding failed");

    assert_eq!(digest, round_trip);
}

#[test]
fn digest_hex_format_and_errors() {
    let d = RpoDigest::new([Felt::new(1), Felt::new(2), Felt::new(3), Felt::new(4)]);
    let s = d.to_hex();
    assert_eq!(s.len(), 66);
    assert!(s.starts_with("0x01000000000000000200000000000000"));

    assert_eq!(RpoDigest::from_hex("0x00"), Err(HexParseError::InvalidLength(4)));
    let no_prefix = "00".repeat(33);
    assert_eq!(RpoDigest::from_hex(&no_prefix), Err(HexParseError::InvalidChar));
    let bad_digit = format!("0x{}zz", "00".repeat(31));
    assert_eq!(RpoDigest::from_hex(&bad_digit), Err(HexParseError::InvalidChar));
    let too_large = format!("0x{}", "ff".repeat(32));
    assert_eq!(RpoDigest::from_hex(&too_large), Err(HexParseError::OutOfRange));
}

#[test]
fn digest_from_random_bytes() {
    let d = RpoDigest::new([Felt::new(5), Felt::new(6), Felt::new(7), Felt::new(8)]);
    let bytes = d.as_bytes();
    assert_eq!(RpoDigest::from_random_bytes(&bytes), Some(d));
    assert_eq!(RpoDigest::from_random_bytes(&bytes[..31]), None);
    assert_eq!(RpoDigest::from_random_bytes(&[0xff; 32]), None);
}

#[test]
fn felt_reduces_values_into_the_field() {
    assert_eq!(Felt::new(0).as_int(), 0);
    assert_eq!(Felt::new(MODULUS).as_int(), 0);
    assert_eq!(Felt::new(MODULUS + 7).as_int(), 7);
    assert_eq!(Felt::zero().as_int(), 0);
}
