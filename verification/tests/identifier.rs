use ksuid::base62::ENCODED_LENGTH;
use ksuid::ksuid::{BYTE_LENGTH, PAYLOAD_LENGTH, TIMESTAMP_LENGTH};
use ksuid::time::{from_ksuid_time, to_ksuid_time, EPOCH_START};
use ksuid::{KSUIDError, Timestamp, KSUID};
use std::iter;

fn at(secs: i64) -> Timestamp {
    Timestamp { secs, nanos: 0 }
}

#[test]
fn test_ksuid_base62() {
    let zero = KSUID::from_bytes(&[0; 20]).unwrap();
    let expected =
        String::from_utf8(iter::repeat('0' as u8).take(ENCODED_LENGTH as usize).collect())
            .unwrap();
    assert_eq!(zero.to_base62(), expected);

    let uid = KSUID::new();
    let other = KSUID::from_base62(&uid.to_base62()).unwrap();
    println!("ksuid: {}", other.to_base62());
    assert_eq!(uid, other);
}

#[test]
fn invalid_from_bytes() {
    let failed = match KSUID::from_bytes(&[0; 2]) {
        Err(_) => true,
        Ok(_) => false,
    };
    assert!(failed);
}

#[test]
fn test_parse_golang() {
    let res = KSUID::from_base62(&"0yEaNH85uGuB4bz7EoWhX228k65");
    assert!(res.is_ok());
    let uid = res.unwrap();
    println!("timestamp: {}, payload: {:?}", uid.timestamp().secs, uid.payload());
}

#[test]
fn parse_known_identifiers() {
    let uid = KSUID::from_base62("0yEaNH85uGuB4bz7EoWhX228k65").unwrap();
    assert_eq!(uid.timestamp(), at(114236173 + 1400000000));
    assert_eq!(
        uid.payload(),
        &[0xFD, 0x24, 0x03, 0xE4, 0xE4, 0x12, 0xC7, 0xA8, 0x0A, 0xD1, 0xB2, 0xEC, 0x08, 0xE4,
            0x62, 0x91]
    );
    let uid = KSUID::from_base62("0ujtsYcgvSTl8PAuAdqWYSMnLOv").unwrap();
    assert_eq!(uid.timestamp().secs, 107608047 + 1400000000);
    assert_eq!(uid.timestamp().nanos, 0);
    assert_eq!(
        uid.payload(),
        &[0xB5, 0xA1, 0xCD, 0x34, 0xB5, 0xF9, 0x9D, 0x11, 0x54, 0xFB, 0x68, 0x53, 0x34, 0x5C,
            0x97, 0x35]
    );
    assert_eq!(uid.to_base62(), "0ujtsYcgvSTl8PAuAdqWYSMnLOv");
}

#[test]
fn lengths() {
    assert_eq!(TIMESTAMP_LENGTH, 4);
    assert_eq!(PAYLOAD_LENGTH, 16);
    assert_eq!(BYTE_LENGTH, 20);
    assert_eq!(EPOCH_START, 1_400_000_000);
    let uid = KSUID::new();
    assert_eq!(uid.as_bytes().len(), 20);
    assert_eq!(uid.payload().len(), 16);
    assert_eq!(uid.to_base62().len(), 27);
}

#[test]
fn new_identifiers_differ() {
    let uid = KSUID::new();
    let other = KSUID::new();
    assert_ne!(uid, other);
    assert_ne!(uid.payload(), other.payload());
}

#[test]
fn new_identifier_has_the_time_of_the_clock() {
    let before = chrono::Utc::now().timestamp();
    let uid = KSUID::new();
    let after = chrono::Utc::now().timestamp();
    let secs = uid.timestamp().secs;
    assert!(before <= secs && secs <= after);
    assert_eq!(uid.timestamp().nanos, 0);
}

#[test]
fn new_identifier_rebuilds_from_its_parts() {
    let uid = KSUID::new();
    let other = KSUID::from_parts(uid.timestamp(), uid.payload()).unwrap();
    assert_eq!(other, uid);
}

#[test]
fn from_bytes_as_bytes_roundtrip() {
    let uid = KSUID::new();
    let other = KSUID::from_bytes(uid.as_bytes()).unwrap();
    assert_eq!(other, uid);
    let bytes: Vec<u8> = (1..=20).collect();
    let uid = KSUID::from_bytes(&bytes).unwrap();
    assert_eq!(uid.as_bytes(), bytes.as_slice());
    assert_eq!(KSUID::from_bytes(uid.as_bytes()).unwrap(), uid);
    assert_eq!(uid.0.to_vec(), bytes);
}

#[test]
fn from_bytes_uses_the_first_20_bytes() {
    let bytes: Vec<u8> = (1..=30).collect();
    let uid = KSUID::from_bytes(&bytes).unwrap();
    assert_eq!(uid.as_bytes(), &bytes[..20]);
}

#[test]
fn from_bytes_rejects_short_slices() {
    for len in 0..20usize {
        let bytes = vec![7u8; len];
        assert_eq!(
            KSUID::from_bytes(&bytes),
            Err(KSUIDError::SliceTooSmall { length: len })
        );
    }
    assert!(KSUID::from_bytes(&[7u8; 20]).is_ok());
}

#[test]
fn from_parts_lays_out_time_and_payload() {
    let payload: Vec<u8> = (0..16).collect();
    let uid = KSUID::from_parts(at(1_500_000_000), &payload).unwrap();
    assert_eq!(
        uid.as_bytes(),
        &[0x05, 0xF5, 0xE1, 0x00, 0, 1, 2, 3, 4, 5, 6, 7, 8, 9, 10, 11, 12, 13, 14, 15]
    );
    assert_eq!(uid.payload(), payload.as_slice());
    assert_eq!(uid.to_base62(), "0qjBBlHPDdOiLegacgbzlKNnI4d");
    let uid = KSUID::from_parts(at(EPOCH_START + 1), &[0u8; 16]).unwrap();
    assert_eq!(uid.as_bytes(), &[0, 0, 0, 1, 0, 0, 0, 0, 0, 0, 0, 0, 0, 0, 0, 0, 0, 0, 0, 0]);
    assert_eq!(uid.to_base62(), "000007n42DGM5Tflk9n8mt7Fhc8");
}

#[test]
fn from_parts_uses_the_first_16_bytes_of_the_payload() {
    let payload: Vec<u8> = (100..130).collect();
    let uid = KSUID::from_parts(at(EPOCH_START), &payload).unwrap();
    assert_eq!(uid.payload(), &payload[..16]);
    assert_eq!(&uid.as_bytes()[..4], &[0, 0, 0, 0]);
}

#[test]
fn from_parts_rejects_short_payloads() {
    for len in 0..16usize {
        let payload = vec![1u8; len];
        assert_eq!(
            KSUID::from_parts(at(1_500_000_000), &payload),
            Err(KSUIDError::SliceTooSmall { length: len })
        );
    }
}

#[test]
fn timestamp_roundtrip() {
    let payload = [9u8; 16];
    for secs in [
        EPOCH_START,
        EPOCH_START + 1,
        1_500_000_000,
        1_700_000_000,
        EPOCH_START + 0xffff_ffff,
    ] {
        let uid = KSUID::from_parts(at(secs), &payload).unwrap();
        assert_eq!(uid.timestamp(), at(secs));
    }
}

#[test]
fn timestamp_is_truncated_to_the_second() {
    let t = Timestamp { secs: 1_500_000_000, nanos: 999_999_999 };
    let uid = KSUID::from_parts(t, &[0u8; 16]).unwrap();
    assert_eq!(uid.timestamp(), Timestamp { secs: 1_500_000_000, nanos: 0 });
}

#[test]
fn time_outside_the_range_wraps() {
    let uid = KSUID::from_parts(at(EPOCH_START - 1), &[0u8; 16]).unwrap();
    assert_eq!(&uid.as_bytes()[..4], &[0xff, 0xff, 0xff, 0xff]);
    assert_eq!(uid.timestamp(), at(EPOCH_START + 0xffff_ffff));
    let uid = KSUID::from_parts(at(EPOCH_START + 0x1_0000_0000), &[0u8; 16]).unwrap();
    assert_eq!(uid.timestamp(), at(EPOCH_START));
}

#[test]
fn ksuid_time_values() {
    assert_eq!(to_ksuid_time(at(EPOCH_START)), 0);
    assert_eq!(to_ksuid_time(at(1_500_000_000)), 100_000_000);
    assert_eq!(to_ksuid_time(at(EPOCH_START - 1)), u32::MAX);
    assert_eq!(to_ksuid_time(at(0)), 2_894_967_296);
    assert_eq!(to_ksuid_time(at(i64::MIN)), 2_894_967_296);
    assert_eq!(to_ksuid_time(at(i64::MAX)), 2_894_967_295);
    assert_eq!(from_ksuid_time(0), at(EPOCH_START));
    assert_eq!(from_ksuid_time(100_000_000), at(1_500_000_000));
    assert_eq!(from_ksuid_time(u32::MAX), at(5_694_967_295));
}

#[test]
fn with_entropy_overwrites_the_first_four_bytes() {
    let entropy = [0xabu8; 20];
    let uid = KSUID::with_entropy(at(1_500_000_000), entropy);
    assert_eq!(&uid.as_bytes()[..4], &[0x05, 0xF5, 0xE1, 0x00]);
    assert_eq!(uid.payload(), &[0xabu8; 16]);
    assert_eq!(uid, KSUID::from_parts(at(1_500_000_000), &entropy[4..]).unwrap());
}

#[test]
fn from_base62_to_base62_roundtrip() {
    for text in [
        "000000000000000000000000000",
        "aWgEPTl1tmebfsQzFP4bxwgy80V",
        "0ujzPyRiIAffKhBux4PvQdDqMHY",
    ] {
        assert_eq!(KSUID::from_base62(text).unwrap().to_base62(), text);
    }
    let uid = KSUID::from_bytes(&[0xff; 20]).unwrap();
    assert_eq!(uid.to_base62(), "aWgEPTl1tmebfsQzFP4bxwgy80V");
}

#[test]
fn from_base62_propagates_the_errors_of_decode() {
    assert_eq!(
        KSUID::from_base62("short"),
        Err(KSUIDError::InvalidBase62Length { value: "short".to_string() })
    );
    let text = "0ujzPyRiIAffKhBux4PvQdDqMH!";
    assert_eq!(
        KSUID::from_base62(text),
        Err(KSUIDError::InvalidBase62Character { value: text.to_string() })
    );
    let text = "zzzzzzzzzzzzzzzzzzzzzzzzzzz";
    assert_eq!(
        KSUID::from_base62(text),
        Err(KSUIDError::InvalidBase62Length { value: text.to_string() })
    );
}

#[test]
fn identifiers_sort_by_time() {
    let earlier = KSUID::from_parts(at(1_500_000_000), &[0xff; 16]).unwrap();
    let later = KSUID::from_parts(at(1_500_000_001), &[0x00; 16]).unwrap();
    assert!(earlier.as_bytes() < later.as_bytes());
    assert!(earlier.to_base62() < later.to_base62());
}

#[test]
fn default_is_zero() {
    let uid = KSUID::default();
    assert_eq!(uid.as_bytes(), &[0u8; 20]);
    assert_eq!(uid.timestamp(), at(EPOCH_START));
}

#[test]
fn equality_is_byte_for_byte() {
    let bytes: Vec<u8> = (1..=20).collect();
    let uid = KSUID::from_bytes(&bytes).unwrap();
    assert_eq!(uid, KSUID::from_bytes(&bytes).unwrap());
    assert!(uid == KSUID::from_bytes(&bytes).unwrap());
    for at in 0..20 {
        let mut other = bytes.clone();
        other[at] ^= 1;
        assert_ne!(uid, KSUID::from_bytes(&other).unwrap());
        assert!(uid != KSUID::from_bytes(&other).unwrap());
    }
}
