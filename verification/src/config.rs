//! Configuration surface: per-channel delivery settings and the connection
//! configuration with its validation rules. Times are in milliseconds, rates
//! in packets per second.
use vstd::prelude::*;

verus! {

/// Default datagram ceiling in bytes.
pub const DEFAULT_MTU: u16 = 1200;

/// Smallest accepted MTU.
pub const MIN_MTU: u16 = 576;

/// Largest accepted MTU (UDP payload ceiling over IPv4).
pub const MAX_MTU: u16 = 65507;

/// Most channels a connection may carry; channel ids fit 3 bits on the wire.
pub const MAX_CHANNEL_COUNT: u8 = 8;

/// Incoming sequences further than this from the newest are ignored.
pub const DEFAULT_MAX_SEQUENCE_DISTANCE: u16 = 1024;

/// Retransmissions of one packet before it is dropped as lost.
pub const DEFAULT_MAX_RELIABLE_RETRIES: u32 = 10;

/// Default bound on unacknowledged packets kept for retransmission.
pub const DEFAULT_MAX_IN_FLIGHT: usize = 256;

/// The retransmission timeout doubles per retry at most this many times.
pub const MAX_BACKOFF_EXPONENT: u32 = 6;

/// The five delivery guarantees a channel can provide.
#[derive(Debug, Clone, Copy, PartialEq, Eq, Structural)]
pub enum DeliveryMode {
    Unreliable,
    UnreliableSequenced,
    ReliableUnordered,
    ReliableOrdered,
    ReliableSequenced,
}

/// Per-channel settings.
#[derive(Debug, Clone, Copy, PartialEq, Eq, Structural)]
pub struct ChannelConfig {
    pub channel_id: u8,
    pub delivery_mode: DeliveryMode,
    pub max_message_size: usize,
    pub message_buffer_size: usize,
    pub priority: u8,
    pub ordered_buffer_timeout_ms: u64,
    pub block_on_full: bool,
}

impl ChannelConfig {
    /// Common defaults shared by the mode constructors.
    pub fn with_mode(delivery_mode: DeliveryMode) -> (r: ChannelConfig)
        ensures
            r.channel_id == 0,
            r.delivery_mode == delivery_mode,
            r.max_message_size == 16384,
            r.message_buffer_size == 256,
            r.priority == 0,
            r.ordered_buffer_timeout_ms == 100,
            r.block_on_full == false,
    {
        ChannelConfig {
            channel_id: 0,
            delivery_mode,
            max_message_size: 16384,
            message_buffer_size: 256,
            priority: 0,
            ordered_buffer_timeout_ms: 100,
            block_on_full: false,
        }
    }

    pub fn unreliable() -> (r: ChannelConfig)
        ensures
            r == ChannelConfig::with_mode_spec(DeliveryMode::Unreliable),
    {
        ChannelConfig::with_mode(DeliveryMode::Unreliable)
    }

    pub fn unreliable_sequenced() -> (r: ChannelConfig)
        ensures
            r == ChannelConfig::with_mode_spec(DeliveryMode::UnreliableSequenced),
    {
        ChannelConfig::with_mode(DeliveryMode::UnreliableSequenced)
    }

    pub fn reliable_unordered() -> (r: ChannelConfig)
        ensures
            r == ChannelConfig::with_mode_spec(DeliveryMode::ReliableUnordered),
    {
        ChannelConfig::with_mode(DeliveryMode::ReliableUnordered)
    }

    pub fn reliable_ordered() -> (r: ChannelConfig)
        ensures
            r == ChannelConfig::with_mode_spec(DeliveryMode::ReliableOrdered),
    {
        ChannelConfig::with_mode(DeliveryMode::ReliableOrdered)
    }

    pub fn reliable_sequenced() -> (r: ChannelConfig)
        ensures
            r == ChannelConfig::with_mode_spec(DeliveryMode::ReliableSequenced),
    {
        ChannelConfig::with_mode(DeliveryMode::ReliableSequenced)
    }

    /// The value the mode constructors return.
    pub open spec fn with_mode_spec(delivery_mode: DeliveryMode) -> ChannelConfig {
        ChannelConfig {
            channel_id: 0,
            delivery_mode,
            max_message_size: 16384,
            message_buffer_size: 256,
            priority: 0,
            ordered_buffer_timeout_ms: 100,
            block_on_full: false,
        }
    }

    /// True for the modes whose messages are tracked for acknowledgment by
    /// default.
    pub fn is_reliable(&self) -> (r: bool)
        ensures
            r == spec_mode_reliable(self.delivery_mode),
    {
        match self.delivery_mode {
            DeliveryMode::ReliableUnordered => true,
            DeliveryMode::ReliableOrdered => true,
            DeliveryMode::ReliableSequenced => true,
            _ => false,
        }
    }
}

/// The reliable delivery modes.
pub open spec fn spec_mode_reliable(m: DeliveryMode) -> bool {
    m == DeliveryMode::ReliableUnordered || m == DeliveryMode::ReliableOrdered || m
        == DeliveryMode::ReliableSequenced
}

/// Reasons `NetworkConfig::validate` rejects a configuration.
#[derive(Debug, Clone, Copy, PartialEq, Eq, Structural)]
pub enum ConfigError {
    FragmentThresholdExceedsMtu,
    InvalidChannelCount,
    InvalidPacketBufferSize,
    InvalidMtu,
    TimeoutNotGreaterThanKeepalive,
    InvalidMaxClients,
}

/// Connection-wide configuration.
#[derive(Debug, Clone, Copy)]
pub struct NetworkConfig {
    pub protocol_id: u32,
    pub max_clients: usize,
    pub max_pending: usize,
    pub mtu: u16,
    pub fragment_threshold: u16,
    pub send_rate: u32,
    pub max_in_flight: usize,
    pub max_channels: u8,
    pub packet_buffer_size: usize,
    pub connection_timeout_ms: u64,
    pub keepalive_interval_ms: u64,
    pub connection_request_timeout_ms: u64,
    pub connection_request_max_retries: u32,
    pub disconnect_retry_timeout_ms: u64,
    pub disconnect_retries: u32,
    pub rate_limit_per_second: usize,
    pub default_channel_config: ChannelConfig,
}

/// The checks `validate` applies, in order; `Ok` exactly when every bound
/// holds.
pub open spec fn spec_validate(c: NetworkConfig) -> Result<(), ConfigError> {
    if c.fragment_threshold > c.mtu {
        Err(ConfigError::FragmentThresholdExceedsMtu)
    } else if c.max_channels == 0 || c.max_channels > MAX_CHANNEL_COUNT {
        Err(ConfigError::InvalidChannelCount)
    } else if c.packet_buffer_size == 0 {
        Err(ConfigError::InvalidPacketBufferSize)
    } else if c.mtu < MIN_MTU || c.mtu > MAX_MTU {
        Err(ConfigError::InvalidMtu)
    } else if c.connection_timeout_ms <= c.keepalive_interval_ms {
        Err(ConfigError::TimeoutNotGreaterThanKeepalive)
    } else if c.max_clients == 0 {
        Err(ConfigError::InvalidMaxClients)
    } else {
        Ok(())
    }
}

impl NetworkConfig {
    /// Checks every configured bound; returns the first violated rule.
    pub fn validate(&self) -> (r: Result<(), ConfigError>)
        ensures
            r == spec_validate(*self),
    {
        if self.fragment_threshold > self.mtu {
            Err(ConfigError::FragmentThresholdExceedsMtu)
        } else if self.max_channels == 0 || self.max_channels > MAX_CHANNEL_COUNT {
            Err(ConfigError::InvalidChannelCount)
        } else if self.packet_buffer_size == 0 {
            Err(ConfigError::InvalidPacketBufferSize)
        } else if self.mtu < MIN_MTU || self.mtu > MAX_MTU {
            Err(ConfigError::InvalidMtu)
        } else if self.connection_timeout_ms <= self.keepalive_interval_ms {
            Err(ConfigError::TimeoutNotGreaterThanKeepalive)
        } else if self.max_clients == 0 {
            Err(ConfigError::InvalidMaxClients)
        } else {
            Ok(())
        }
    }
}

/// The default configuration: it always validates.
pub open spec fn spec_default_config() -> NetworkConfig {
    NetworkConfig {
        protocol_id: 0x12345678,
        max_clients: 64,
        max_pending: 64,
        mtu: DEFAULT_MTU,
        fragment_threshold: 1024,
        send_rate: 60,
        max_in_flight: DEFAULT_MAX_IN_FLIGHT,
        max_channels: 8,
        packet_buffer_size: 256,
        connection_timeout_ms: 5000,
        keepalive_interval_ms: 1000,
        connection_request_timeout_ms: 500,
        connection_request_max_retries: 5,
        disconnect_retry_timeout_ms: 200,
        disconnect_retries: 3,
        rate_limit_per_second: 10,
        default_channel_config: ChannelConfig::with_mode_spec(DeliveryMode::ReliableOrdered),
    }
}

impl Default for NetworkConfig {
    fn default() -> (r: NetworkConfig)
        ensures
            r == spec_default_config(),
            spec_validate(r) is Ok,
    {
        NetworkConfig {
            protocol_id: 0x12345678,
            max_clients: 64,
            max_pending: 64,
            mtu: DEFAULT_MTU,
            fragment_threshold: 1024,
            send_rate: 60,
            max_in_flight: DEFAULT_MAX_IN_FLIGHT,
            max_channels: 8,
            packet_buffer_size: 256,
            connection_timeout_ms: 5000,
            keepalive_interval_ms: 1000,
            connection_request_timeout_ms: 500,
            connection_request_max_retries: 5,
            disconnect_retry_timeout_ms: 200,
            disconnect_retries: 3,
            rate_limit_per_second: 10,
            default_channel_config: ChannelConfig::with_mode(DeliveryMode::ReliableOrdered),
        }
    }
}

} // verus!
