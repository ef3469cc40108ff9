//! Transport core of a reliable-UDP game networking library: bit-level packet
//! codec, per-connection reliability with adaptive retransmission, five
//! delivery-mode channels, fragmentation, congestion-aware pacing, and the
//! connection handshake and lifecycle state machines.
//!
//! The core is socket-free and clock-free: every function takes plain values
//! (bytes, peer ids, milliseconds) and returns plain values, so an unverified
//! driver around it only moves datagrams and reads the clock.
use vstd::prelude::*;

pub mod assoc;
pub mod bit_io;
pub mod channel;
pub mod config;
pub mod congestion;
pub mod connection;
pub mod fragment;
pub mod packet;
pub mod reliability;
pub mod security;
pub mod server;
pub mod stats;
pub mod util;

pub use channel::{Channel, ChannelError};
pub use config::{ChannelConfig, ConfigError, DeliveryMode, NetworkConfig};
pub use congestion::{batch_messages, unbatch_messages, BandwidthTracker, CongestionController,
    CongestionMode};
pub use connection::{Connection, ConnectionError, ConnectionState, DisconnectReason};
pub use fragment::{fragment_message, FragmentAssembler, FragmentError, FragmentHeader,
    MtuDiscovery};
pub use packet::{Packet, PacketError, PacketHeader, PacketType};
pub use reliability::{ReliableEndpoint, SequenceBuffer};
pub use security::{append_crc32, crc32c, validate_and_strip_crc32, ConnectToken,
    ConnectionRateLimiter, TokenValidator};
pub use server::{ServerCore, ServerEvent};
pub use stats::{ChannelStats, NetworkStats, ReliabilityStats, SocketStats};
pub use util::{sequence_diff, sequence_greater_than};

verus! {

/// Errors the unverified socket driver can report; the verified core never
/// produces these itself.
#[derive(Debug, Clone, PartialEq, Eq)]
pub enum SocketError {
    Io(String),
    InvalidAddress,
    SocketClosed,
    WouldBlock,
    Other(String),
}

/// Unified error type encompassing every error the library surfaces.
#[derive(Debug)]
pub enum NetError {
    Socket(SocketError),
    Connection(connection::ConnectionError),
    Channel(channel::ChannelError),
    Security(security::TokenError),
    Config(config::ConfigError),
}

} // verus!
