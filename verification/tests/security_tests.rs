use gbnet::security::{append_crc32, crc32c, decrypt_payload, encrypt_payload,
    validate_and_strip_crc32, ConnectToken, ConnectionRateLimiter, EncryptionError, TokenError,
    TokenValidator};

#[test]
fn test_crc32_catches_bitflips() {
    let data = b"hello world".to_vec();
    let crc = crc32c(&data);

    // Same data should produce same CRC
    assert_eq!(crc, crc32c(&data));

    // Flipped bit should produce different CRC
    let mut corrupted = data.clone();
    corrupted[0] ^= 1;
    assert_ne!(crc, crc32c(&corrupted));
}

#[test]
fn test_crc32c_known_value() {
    // CRC-32C of "123456789" is the standard check value 0xE3069283.
    let data = b"123456789".to_vec();
    assert_eq!(crc32c(&data), 0xE3069283);
}

#[test]
fn test_crc32_append_and_validate() {
    let mut data = b"test packet data".to_vec();
    append_crc32(&mut data);

    assert!(data.len() == 16 + 4);
    let validated = validate_and_strip_crc32(&data);
    assert!(validated.is_some());
    assert_eq!(validated.unwrap(), b"test packet data");
}

#[test]
fn test_crc32_corrupted_rejected() {
    let mut data = b"test packet data".to_vec();
    append_crc32(&mut data);

    // Corrupt a byte
    data[5] ^= 0xFF;
    assert!(validate_and_strip_crc32(&data).is_none());
}

#[test]
fn test_crc32_short_input_rejected() {
    assert!(validate_and_strip_crc32(&[1, 2, 3]).is_none());
}

#[test]
fn test_connect_token_expiry() {
    let token = ConnectToken {
        client_id: 42,
        server_addresses: vec![1234],
        create_time_ms: 0,
        expire_duration_ms: 5000,
        user_data: vec![],
        token_data: vec![],
    };
    assert!(token.is_expired(10_000));

    let fresh_token = ConnectToken::new(42, vec![1234], 60, vec![], 0);
    assert!(!fresh_token.is_expired(0));
}

#[test]
fn test_token_replay_rejection() {
    let mut validator = TokenValidator::new(60_000);

    let token = ConnectToken::new(42, vec![1234], 60, vec![], 0);
    assert!(validator.validate(&token, 0).is_ok());
    assert!(matches!(validator.validate(&token, 1), Err(TokenError::Replayed)));
}

#[test]
fn test_token_expired_rejected() {
    let mut validator = TokenValidator::new(60_000);
    let token = ConnectToken::new(42, vec![1234], 1, vec![], 0);
    assert!(matches!(validator.validate(&token, 5_000), Err(TokenError::Expired)));
}

#[test]
fn test_rate_limiter() {
    let mut limiter = ConnectionRateLimiter::new(3);
    let addr: u64 = 1234;

    assert!(limiter.allow(addr, 0));
    assert!(limiter.allow(addr, 1));
    assert!(limiter.allow(addr, 2));
    assert!(!limiter.allow(addr, 3)); // 4th request blocked
}

#[test]
fn test_rate_limiter_window_slides() {
    let mut limiter = ConnectionRateLimiter::new(3);
    let addr: u64 = 9;
    assert!(limiter.allow(addr, 0));
    assert!(limiter.allow(addr, 1));
    assert!(limiter.allow(addr, 2));
    assert!(!limiter.allow(addr, 3));
    // A second later the early requests fall out of the window.
    assert!(limiter.allow(addr, 1500));
}

#[test]
fn test_rate_limiter_per_address() {
    let mut limiter = ConnectionRateLimiter::new(1);
    assert!(limiter.allow(1, 0));
    assert!(!limiter.allow(1, 1));
    assert!(limiter.allow(2, 1));
}

#[test]
fn test_encryption_stubs_refuse() {
    let key = [0x42u8; 32];
    assert!(matches!(
        encrypt_payload(b"secret", &key, 1),
        Err(EncryptionError::FeatureNotEnabled)
    ));
    assert!(matches!(
        decrypt_payload(b"secret", &key, 1),
        Err(EncryptionError::FeatureNotEnabled)
    ));
}

#[test]
fn test_rate_limiter_cleanup_drops_idle_peers() {
    let mut limiter = ConnectionRateLimiter::new(3);
    assert!(limiter.allow(1, 0));
    assert!(limiter.allow(2, 0));
    assert_eq!(limiter.requests.len(), 2);
    // Both peers' requests fall out of the one-second window.
    limiter.cleanup(2000);
    assert_eq!(limiter.requests.len(), 0);
    // A peer with a fresh request survives cleanup.
    assert!(limiter.allow(3, 2000));
    limiter.cleanup(2100);
    assert_eq!(limiter.requests.len(), 1);
    assert_eq!(limiter.requests[0].0, 3);
}
