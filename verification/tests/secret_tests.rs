use pumpkin_voice::secret::{uuid_to_bytes, Secret, SecretError};

#[test]
fn secret_bytes_round_trip() {
    let bytes: [u8; 16] = [9, 8, 7, 6, 5, 4, 3, 2, 1, 0, 0xff, 0xfe, 0xfd, 0xfc, 0xfb, 0xfa];
    let s = Secret::from_bytes(bytes);
    assert_eq!(s.uuid, u128::from_be_bytes(bytes));
    assert_eq!(s.to_bytes(), bytes);
    assert_eq!(uuid_to_bytes(1), [0, 0, 0, 0, 0, 0, 0, 0, 0, 0, 0, 0, 0, 0, 0, 1]);
}

#[test]
fn generated_secrets_are_random_v4_uuids() {
    let a = Secret::generate();
    let b = Secret::generate();
    assert_ne!(a, b);
    assert_eq!((a.uuid >> 76) & 0xf, 4);
    assert_eq!((a.uuid >> 62) & 0x3, 2);
}

#[test]
fn decrypt_undoes_encrypt() {
    let s = Secret::generate();
    let data = b"voice frame".to_vec();
    let payload = s.encrypt(&data).unwrap();
    assert_eq!(payload.len(), 12 + data.len() + 16);
    assert_ne!(&payload[12..12 + data.len()], &data[..]);
    assert_eq!(s.decrypt(&payload), Ok(data));
    let empty = s.encrypt(&[]).unwrap();
    assert_eq!(empty.len(), 28);
    assert_eq!(s.decrypt(&empty), Ok(vec![]));
}

#[test]
fn nonces_differ_between_encryptions() {
    let s = Secret::generate();
    let a = s.encrypt(b"x").unwrap();
    let b = s.encrypt(b"x").unwrap();
    assert_ne!(a, b);
}

#[test]
fn decrypt_refuses_short_tampered_or_foreign_payloads() {
    let s = Secret::generate();
    assert_eq!(s.decrypt(&[0; 11]), Err(SecretError::TooShort));
    assert_eq!(s.decrypt(&[0; 12]), Err(SecretError::Rejected));
    let mut payload = s.encrypt(b"hello").unwrap();
    let other = Secret { uuid: s.uuid ^ 1 };
    assert_eq!(other.decrypt(&payload), Err(SecretError::Rejected));
    payload[13] ^= 0x40;
    assert_eq!(s.decrypt(&payload), Err(SecretError::Rejected));
}

#[test]
fn payloads_too_short_for_a_tag_are_rejected() {
    let s = Secret::from_bytes([0u8; 16]);
    assert_eq!(s.decrypt(&[]), Err(SecretError::TooShort));
    assert_eq!(s.decrypt(&[0u8; 11]), Err(SecretError::TooShort));
    // A nonce, but fewer than sixteen bytes of tag.
    assert_eq!(s.decrypt(&[0u8; 27]), Err(SecretError::Rejected));
    assert_eq!(s.decrypt(&[0u8; 28]), Err(SecretError::Rejected));
}
