use model_das::secure_overlay::{SecureDASContentKey, SecureDASValidator};

#[test]
fn content_key_round_trip() {
    let mut id = [0u8; 32];
    for i in 0..32 {
        id[i] = i as u8;
    }
    let bytes: Vec<u8> = SecureDASContentKey::Sample(id).into();
    assert_eq!(bytes.len(), 33);
    assert_eq!(bytes[0], 0);
    assert_eq!(&bytes[1..], &id[..]);
    assert_eq!(SecureDASContentKey::try_from(bytes), Ok(SecureDASContentKey::Sample(id)));
}

#[test]
fn content_key_rejects_other_bytes() {
    let refused = Err("Unable to decode SSZ");
    assert_eq!(SecureDASContentKey::try_from(vec![]), refused);
    assert_eq!(SecureDASContentKey::try_from(vec![0; 32]), refused);
    assert_eq!(SecureDASContentKey::try_from(vec![0; 34]), refused);
    assert_eq!(SecureDASContentKey::try_from(vec![1; 33]), refused);
    assert_eq!(SecureDASContentKey::try_from(vec![200; 33]), refused);
}

#[test]
fn content_key_in_words() {
    let mut id = [0u8; 32];
    id[0] = 0xf9;
    id[31] = 0x0a;
    let key = SecureDASContentKey::Sample(id);
    let expected = format!("sample: f9{}0a", "0".repeat(60));
    assert_eq!(key.to_string(), expected);
    assert_eq!(key.content_id(), id);
}

#[test]
fn any_sample_content_is_valid() {
    let key = SecureDASContentKey::Sample([3; 32]);
    assert_eq!(SecureDASValidator.validate_content(&key, b"anything"), Ok(()));
    assert_eq!(SecureDASValidator.validate_content(&key, b""), Ok(()));
}
