//! The pure pieces: password policy counting, hex, the record framing, and
//! field patching.

use cryptkv::framing::{decode_payload, encode_payload};
use cryptkv::hexcodec::{hex_decode, hex_encode};
use cryptkv::kv_view::apply_field_patches;
use cryptkv::policy::{PasswordPolicy, PasswordPolicyConfig};

#[test]
fn policy_counts_character_classes() {
    let policy = PasswordPolicy::new(PasswordPolicyConfig {
        min_length: 12,
        min_number_of_special_chars: 3,
        min_number_of_uppercase: 3,
        min_number_of_digits: 3,
    });
    assert!(policy.is_valid("Aa1!Bb2@Cc3#"));
    assert!(!policy.is_valid("password"));
    // Too short, though every class is satisfied.
    assert!(!policy.is_valid("A1!B2@C3#"));
    // Not enough digits.
    assert!(!policy.is_valid("Aa1!Bb2@Ccc#"));
    // Not enough uppercase.
    assert!(!policy.is_valid("Aa1!bb2@cc3#"));
    // Not enough specials.
    assert!(!policy.is_valid("Aa1!Bb2@Cc33"));
}

#[test]
fn policy_default_minima() {
    let policy = PasswordPolicy::default();
    assert!(!policy.is_valid("password"));
    assert!(policy.is_valid("Aa1!Bb2@Cc3#"));
}

#[test]
fn hex_round_trip() {
    let data: Vec<u8> = vec![0, 1, 15, 16, 127, 128, 255];
    let encoded = hex_encode(&data);
    assert_eq!(encoded, b"00010f107f80ff".to_vec());
    let decoded = hex_decode(&encoded).expect("valid hex");
    assert_eq!(decoded, data);
}

#[test]
fn hex_decode_accepts_uppercase_and_rejects_junk() {
    assert_eq!(hex_decode(&b"0A1B".to_vec()), Some(vec![10, 27]));
    assert_eq!(hex_decode(&b"0g".to_vec()), None);
    assert_eq!(hex_decode(&b"abc".to_vec()), None);
}

#[test]
fn payload_round_trip() {
    let entries: Vec<(Vec<u8>, Vec<u8>)> = vec![
        (b"test1".to_vec(), b"test_value1".to_vec()),
        (b"test2".to_vec(), b"test_value2".to_vec()),
        (Vec::new(), b";,;".to_vec()),
    ];
    let payload = encode_payload(&entries);
    let decoded = decode_payload(&payload).expect("well formed");
    assert_eq!(decoded, entries);
}

#[test]
fn payload_single_record_shape() {
    let entries: Vec<(Vec<u8>, Vec<u8>)> = vec![(vec![0xab], vec![0x01, 0xff])];
    let payload = encode_payload(&entries);
    assert_eq!(payload, b"ab,01ff;".to_vec());
}

#[test]
fn payload_rejects_malformed_streams() {
    // No record terminator.
    assert_eq!(decode_payload(&b"ab,cd".to_vec()), None);
    // No separator inside the record.
    assert_eq!(decode_payload(&b"abcd;".to_vec()), None);
    // Ill-formed hex bodies.
    assert_eq!(decode_payload(&b"ab,c;".to_vec()), None);
    assert_eq!(decode_payload(&b"zz,cd;".to_vec()), None);
    // The empty payload holds no records.
    assert_eq!(decode_payload(&Vec::new()), Some(Vec::new()));
}

#[test]
fn field_patches_last_write_wins() {
    let base = vec![
        ("name".to_string(), "\"a\"".to_string()),
        ("count".to_string(), "1".to_string()),
    ];
    let patches = vec![
        ("count".to_string(), "2".to_string()),
        ("extra".to_string(), "true".to_string()),
        ("count".to_string(), "3".to_string()),
    ];
    let merged = apply_field_patches(base, &patches);
    assert_eq!(
        merged,
        vec![
            ("name".to_string(), "\"a\"".to_string()),
            ("count".to_string(), "3".to_string()),
            ("extra".to_string(), "true".to_string()),
        ]
    );
}
