use ksuid::base62::{
    base62_value, decode, encode, is_base62, BASE62_CHARS, DECODED_LENGTH, ENCODED_LENGTH,
    MAX_STRING_ENCODED,
};
use ksuid::KSUIDError;
use rand::RngCore;

fn last_byte(b: u8) -> [u8; 20] {
    let mut bytes = [0u8; 20];
    bytes[19] = b;
    bytes
}

#[test]
fn b62_roundtrip() {
    let mut bytes = [0u8; 20];
    rand::thread_rng().fill_bytes(&mut bytes);
    let encoded = encode(&bytes);
    let decoded = decode(&encoded).unwrap();
    assert_eq!(decoded.as_slice(), &bytes);
}

#[test]
fn roundtrip_of_many_random_values() {
    let mut rng = rand::thread_rng();
    for _ in 0..2000 {
        let mut bytes = [0u8; 20];
        rng.fill_bytes(&mut bytes);
        let encoded = encode(&bytes);
        assert_eq!(encoded.len(), 27);
        assert_eq!(decode(&encoded).unwrap(), bytes.to_vec());
    }
}

#[test]
fn roundtrip_of_boundary_values() {
    let mut cases: Vec<[u8; 20]> = vec![[0u8; 20], [0xff; 20], last_byte(1), last_byte(0xff)];
    let mut high = [0u8; 20];
    high[0] = 0x80;
    cases.push(high);
    let mut word = [0u8; 20];
    word[15] = 1;
    cases.push(word);
    for bytes in cases {
        assert_eq!(decode(&encode(&bytes)).unwrap(), bytes.to_vec());
    }
}

#[test]
fn encode_has_fixed_width() {
    assert_eq!(ENCODED_LENGTH, 27);
    assert_eq!(encode(&[0u8; 20]).len(), 27);
    assert_eq!(encode(&[0xff; 20]).len(), 27);
    assert_eq!(encode(&last_byte(7)).len(), 27);
    assert_eq!(encode(&last_byte(7)).chars().count(), 27);
}

#[test]
fn encode_zero() {
    assert_eq!(encode(&[0u8; 20]), "0".repeat(27));
    assert_eq!(encode(&[0u8; 20]), "000000000000000000000000000");
}

#[test]
fn encode_maximum() {
    assert_eq!(MAX_STRING_ENCODED, "aWgEPTl1tmebfsQzFP4bxwgy80V");
    assert_eq!(encode(&[0xff; 20]), "aWgEPTl1tmebfsQzFP4bxwgy80V");
}

#[test]
fn encode_one_in_the_time_word() {
    let mut bytes = [0u8; 20];
    bytes[3] = 1;
    assert_eq!(encode(&bytes), "000007n42DGM5Tflk9n8mt7Fhc8");
}

#[test]
fn encode_small_numbers() {
    assert_eq!(encode(&last_byte(1)), "000000000000000000000000001");
    assert_eq!(encode(&last_byte(9)), "000000000000000000000000009");
    assert_eq!(encode(&last_byte(10)), "00000000000000000000000000A");
    assert_eq!(encode(&last_byte(35)), "00000000000000000000000000Z");
    assert_eq!(encode(&last_byte(36)), "00000000000000000000000000a");
    assert_eq!(encode(&last_byte(61)), "00000000000000000000000000z");
    assert_eq!(encode(&last_byte(62)), "000000000000000000000000010");
    let mut bytes = [0u8; 20];
    bytes[18] = 1;
    assert_eq!(encode(&bytes), "000000000000000000000000048");
}

#[test]
fn encode_known_values() {
    let bytes: [u8; 20] = [
        1, 2, 3, 4, 5, 6, 7, 8, 9, 10, 11, 12, 13, 14, 15, 16, 17, 18, 19, 20,
    ];
    assert_eq!(encode(&bytes), "08umpsRGMi9hXbwR6pXWz2Ckob6");
    let bytes: [u8; 20] = [
        6, 105, 247, 239, 181, 161, 205, 52, 181, 249, 157, 17, 84, 251, 104, 83, 52, 92, 151, 53,
    ];
    assert_eq!(encode(&bytes), "0ujtsYcgvSTl8PAuAdqWYSMnLOv");
}

#[test]
fn encode_reads_bytes_most_significant_first() {
    let mut low = [0u8; 20];
    low[3] = 1;
    let mut high = [0u8; 20];
    high[0] = 1;
    assert_ne!(encode(&low), encode(&high));
    assert!(encode(&low) < encode(&high));
}

#[test]
fn decode_known_values() {
    assert_eq!(decode("000000000000000000000000000").unwrap(), vec![0u8; 20]);
    assert_eq!(decode(MAX_STRING_ENCODED).unwrap(), vec![0xffu8; 20]);
    assert_eq!(decode("000000000000000000000000001").unwrap(), last_byte(1).to_vec());
    assert_eq!(decode("000000000000000000000000010").unwrap(), last_byte(62).to_vec());
    assert_eq!(
        decode("0ujzPyRiIAffKhBux4PvQdDqMHY").unwrap(),
        vec![
            6, 106, 2, 156, 115, 252, 26, 163, 178, 68, 98, 70, 214, 232, 159, 205, 144, 158, 143,
            232
        ]
    );
    assert_eq!(decode("08umpsRGMi9hXbwR6pXWz2Ckob6").unwrap().len(), DECODED_LENGTH);
}

#[test]
fn decode_rejects_short_text() {
    for len in 0..27 {
        let text = "0".repeat(len);
        assert_eq!(
            decode(&text),
            Err(KSUIDError::InvalidBase62Length { value: text.clone() })
        );
    }
    let text = &MAX_STRING_ENCODED[..26];
    assert_eq!(
        decode(text),
        Err(KSUIDError::InvalidBase62Length { value: text.to_string() })
    );
}

#[test]
fn decode_rejects_short_text_before_it_looks_at_characters() {
    assert_eq!(
        decode("!!"),
        Err(KSUIDError::InvalidBase62Length { value: "!!".to_string() })
    );
}

#[test]
fn decode_rejects_bytes_outside_the_alphabet() {
    for bad in ["!", "/", ":", "@", "[", "`", "{", " ", "-", "_", "~"] {
        for at in [0usize, 13, 26] {
            let mut text = "0".repeat(27);
            text.replace_range(at..at + 1, bad);
            assert_eq!(
                decode(&text),
                Err(KSUIDError::InvalidBase62Character { value: text.clone() }),
                "{:?}",
                text
            );
        }
    }
}

#[test]
fn decode_rejects_text_that_is_not_ascii() {
    let text = format!("{}é", "0".repeat(26));
    assert_eq!(text.len(), 28);
    assert_eq!(
        decode(&text),
        Err(KSUIDError::InvalidBase62Character { value: text.clone() })
    );
}

#[test]
fn decode_rejects_numbers_of_more_than_160_bits() {
    let text = "aWgEPTl1tmebfsQzFP4bxwgy80W";
    assert_eq!(
        decode(text),
        Err(KSUIDError::InvalidBase62Length { value: text.to_string() })
    );
    let text = "z".repeat(27);
    assert_eq!(
        decode(&text),
        Err(KSUIDError::InvalidBase62Length { value: text.clone() })
    );
    let text = "b00000000000000000000000000";
    assert_eq!(
        decode(text),
        Err(KSUIDError::InvalidBase62Length { value: text.to_string() })
    );
}

#[test]
fn decode_reads_the_first_27_bytes_only() {
    let text = format!("{}{}", MAX_STRING_ENCODED, "zzz");
    assert_eq!(decode(&text).unwrap(), vec![0xffu8; 20]);
    let text = "000000000000000000000000001!";
    assert_eq!(decode(text).unwrap(), last_byte(1).to_vec());
}

#[test]
fn order_of_texts_is_order_of_numbers() {
    let mut rng = rand::thread_rng();
    for _ in 0..2000 {
        let mut a = [0u8; 20];
        let mut b = [0u8; 20];
        rng.fill_bytes(&mut a);
        rng.fill_bytes(&mut b);
        assert_eq!(a < b, encode(&a) < encode(&b));
        assert_eq!(a == b, encode(&a) == encode(&b));
    }
    let mut a = [0u8; 20];
    a[19] = 0xff;
    let mut b = [0u8; 20];
    b[18] = 1;
    assert!(a < b);
    assert!(encode(&a) < encode(&b));
    assert!(encode(&last_byte(35)) < encode(&last_byte(36)));
    assert!(encode(&last_byte(9)) < encode(&last_byte(10)));
    assert!(encode(&[0u8; 20]) < encode(&[0xff; 20]));
}

#[test]
fn digit_values_of_the_alphabet() {
    assert_eq!(base62_value(&b'0'), 0);
    assert_eq!(base62_value(&b'9'), 9);
    assert_eq!(base62_value(&b'A'), 10);
    assert_eq!(base62_value(&b'Z'), 35);
    assert_eq!(base62_value(&b'a'), 36);
    assert_eq!(base62_value(&b'z'), 61);
    for (digit, symbol) in BASE62_CHARS.iter().enumerate() {
        assert!(is_base62(*symbol));
        assert_eq!(base62_value(symbol) as usize, digit);
    }
    assert_eq!(
        BASE62_CHARS.to_vec(),
        b"0123456789ABCDEFGHIJKLMNOPQRSTUVWXYZabcdefghijklmnopqrstuvwxyz".to_vec()
    );
}

#[test]
fn alphabet_membership() {
    let members = (0u8..=255).filter(|b| is_base62(*b)).count();
    assert_eq!(members, 62);
    for b in 0u8..=255 {
        assert_eq!(is_base62(b), b.is_ascii_alphanumeric());
    }
}
