use gbnet::config::{ConfigError, DeliveryMode, NetworkConfig, DEFAULT_MTU, MAX_CHANNEL_COUNT,
    MAX_MTU, MIN_MTU};

#[test]
fn test_config_defaults() {
    let config = NetworkConfig::default();

    assert_eq!(config.protocol_id, 0x12345678);
    assert_eq!(config.max_clients, 64);
    assert_eq!(config.mtu, 1200);
    assert_eq!(config.max_channels, 8);

    let channel_config = config.default_channel_config;
    assert_eq!(channel_config.delivery_mode, DeliveryMode::ReliableOrdered);
}

#[test]
fn test_config_validation_default_passes() {
    let config = NetworkConfig::default();
    assert!(config.validate().is_ok());
}

#[test]
fn test_config_validation_fragment_threshold_exceeds_mtu() {
    let config = NetworkConfig { fragment_threshold: DEFAULT_MTU + 1, ..Default::default() };
    assert!(matches!(config.validate(), Err(ConfigError::FragmentThresholdExceedsMtu)));
}

#[test]
fn test_config_validation_zero_channels() {
    let config = NetworkConfig { max_channels: 0, ..Default::default() };
    assert!(matches!(config.validate(), Err(ConfigError::InvalidChannelCount)));
}

#[test]
fn test_config_validation_too_many_channels() {
    let config = NetworkConfig { max_channels: MAX_CHANNEL_COUNT + 1, ..Default::default() };
    assert!(matches!(config.validate(), Err(ConfigError::InvalidChannelCount)));
}

#[test]
fn test_config_validation_zero_packet_buffer() {
    let config = NetworkConfig { packet_buffer_size: 0, ..Default::default() };
    assert!(matches!(config.validate(), Err(ConfigError::InvalidPacketBufferSize)));
}

#[test]
fn test_config_validation_mtu_too_small() {
    let config = NetworkConfig {
        mtu: MIN_MTU - 1,
        fragment_threshold: MIN_MTU - 1,
        ..Default::default()
    };
    assert!(matches!(config.validate(), Err(ConfigError::InvalidMtu)));
}

#[test]
fn test_config_validation_mtu_too_large() {
    let config = NetworkConfig { mtu: MAX_MTU + 1, ..Default::default() };
    assert!(matches!(config.validate(), Err(ConfigError::InvalidMtu)));
}

#[test]
fn test_config_validation_timeout_not_greater_than_keepalive() {
    let config = NetworkConfig {
        connection_timeout_ms: 1000,
        keepalive_interval_ms: 1000,
        ..Default::default()
    };
    assert!(matches!(config.validate(), Err(ConfigError::TimeoutNotGreaterThanKeepalive)));
}

#[test]
fn test_config_validation_zero_max_clients() {
    let config = NetworkConfig { max_clients: 0, ..Default::default() };
    assert!(matches!(config.validate(), Err(ConfigError::InvalidMaxClients)));
}
