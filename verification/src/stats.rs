//! Statistics types reported by connections, channels, the reliability
//! endpoint, and the socket driver. Rates are integers: round-trip times in
//! milliseconds, loss in parts per thousand, bandwidth in bytes per second.
use vstd::prelude::*;

verus! {

/// Per-connection counters and health figures.
#[derive(Debug, Clone)]
pub struct NetworkStats {
    pub packets_sent: u64,
    pub packets_received: u64,
    pub bytes_sent: u64,
    pub bytes_received: u64,
    pub packet_loss_permille: u32,
    pub rtt_ms: u64,
    pub bandwidth_up_bytes_per_sec: u64,
    pub bandwidth_down_bytes_per_sec: u64,
    pub send_errors: u64,
}

impl Default for NetworkStats {
    fn default() -> (r: NetworkStats)
        ensures
            r.packets_sent == 0,
            r.packets_received == 0,
            r.bytes_sent == 0,
            r.bytes_received == 0,
            r.packet_loss_permille == 0,
            r.rtt_ms == 0,
            r.bandwidth_up_bytes_per_sec == 0,
            r.bandwidth_down_bytes_per_sec == 0,
            r.send_errors == 0,
    {
        NetworkStats {
            packets_sent: 0,
            packets_received: 0,
            bytes_sent: 0,
            bytes_received: 0,
            packet_loss_permille: 0,
            rtt_ms: 0,
            bandwidth_up_bytes_per_sec: 0,
            bandwidth_down_bytes_per_sec: 0,
            send_errors: 0,
        }
    }
}

/// Per-channel counters.
#[derive(Debug, Clone)]
pub struct ChannelStats {
    pub id: u8,
    pub messages_sent: u64,
    pub messages_received: u64,
    pub bytes_sent: u64,
    pub bytes_received: u64,
    pub send_buffer_size: usize,
    pub pending_ack_count: usize,
    pub receive_buffer_size: usize,
}

/// Reliability-endpoint counters and estimator state.
#[derive(Debug, Clone)]
pub struct ReliabilityStats {
    pub packets_in_flight: usize,
    pub local_sequence: u16,
    pub remote_sequence: u16,
    pub srtt_ms: u64,
    pub rttvar_ms: u64,
    pub rto_ms: u64,
    pub packet_loss_permille: u32,
    pub total_sent: u64,
    pub total_acked: u64,
    pub total_lost: u64,
    pub packets_evicted: u64,
}

/// Raw socket counters, kept by the unverified socket driver.
#[derive(Debug, Clone)]
pub struct SocketStats {
    pub packets_sent: u64,
    pub packets_received: u64,
    pub bytes_sent: u64,
    pub bytes_received: u64,
    pub last_receive_time_ms: Option<u64>,
    pub last_send_time_ms: Option<u64>,
}

impl Default for SocketStats {
    fn default() -> (r: SocketStats)
        ensures
            r.packets_sent == 0,
            r.packets_received == 0,
            r.bytes_sent == 0,
            r.bytes_received == 0,
            r.last_receive_time_ms is None,
            r.last_send_time_ms is None,
    {
        SocketStats {
            packets_sent: 0,
            packets_received: 0,
            bytes_sent: 0,
            bytes_received: 0,
            last_receive_time_ms: None,
            last_send_time_ms: None,
        }
    }
}

} // verus!
