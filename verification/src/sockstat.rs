//! State of a TCP socket as the kernel reports it.

use vstd::prelude::*;

verus! {

/// Kernel statistics of a TCP connection.
#[derive(Debug, Clone, Copy, PartialEq, Eq, Structural)]
pub struct TcpInfo {
    pub tcpi_state: u8,
    pub tcpi_ca_state: u8,
    pub tcpi_retransmits: u8,
    pub tcpi_probes: u8,
    pub tcpi_backoff: u8,
    pub tcpi_options: u8,
    /// This contains the bitfields `tcpi_snd_wscale` and
    /// `tcpi_rcv_wscale`. Each is 4 bits.
    pub tcpi_snd_rcv_wscale: u8,
    pub tcpi_delivery_rate_app_limited_and_fastopen_client_fail: u8, // 3 bits

    pub tcpi_rto: u32,
    pub tcpi_ato: u32,
    pub tcpi_snd_mss: u32,
    pub tcpi_rcv_mss: u32,

    pub tcpi_unacked: u32,
    pub tcpi_sacked: u32,
    pub tcpi_lost: u32,
    pub tcpi_retrans: u32,
    pub tcpi_fackets: u32,

    pub tcpi_last_data_sent: u32,
    pub tcpi_last_ack_sent: u32,
    pub tcpi_last_data_recv: u32,
    pub tcpi_last_ack_recv: u32,

    pub tcpi_pmtu: u32,
    pub tcpi_rcv_ssthresh: u32,
    pub tcpi_rtt: u32,
    pub tcpi_rttvar: u32,
    pub tcpi_snd_ssthresh: u32,
    pub tcpi_snd_cwnd: u32,
    pub tcpi_advmss: u32,
    pub tcpi_reordering: u32,

    pub tcpi_rcv_rtt: u32,
    pub tcpi_rcv_space: u32,

    /// The number of packets in the current connection that contained data
    /// being retransmitted counted across the lifetime of the connection.
    pub tcpi_total_retrans: u32,

    pub tcpi_pacing_rate: u64,
    pub tcpi_max_pacing_rate: u64,
    pub tcpi_bytes_acked: u64,    // RFC4898 tcpEStatsAppHCThruOctetsAcked
    pub tcpi_bytes_received: u64, // RFC4898 tcpEStatsAppHCThruOctetsReceived
    pub tcpi_segs_out: u32,       // RFC4898 tcpEStatsPerfSegsOut
    pub tcpi_segs_in: u32,        // RFC4898 tcpEStatsPerfSegsIn

    pub tcpi_notsent_bytes: u32,
    pub tcpi_min_rtt: u32,
    pub tcpi_data_segs_in: u32,  // RFC4898 tcpEStatsDataSegsIn
    pub tcpi_data_segs_out: u32, // RFC4898 tcpEStatsDataSegsOut

    pub tcpi_delivery_rate: u64,

    pub tcpi_busy_time: u64,      // Time (usec) busy sending data
    pub tcpi_rwnd_limited: u64,   // Time (usec) limited by receive window
    pub tcpi_sndbuf_limited: u64, // Time (usec) limited by send buffer

    pub tcpi_delivered: u32,
    pub tcpi_delivered_ce: u32,

    pub tcpi_bytes_sent: u64,    // RFC4898 tcpEStatsPerfHCDataOctetsOut
    pub tcpi_bytes_retrans: u64, // RFC4898 tcpEStatsPerfOctetsRetrans
    pub tcpi_dsack_dups: u32,    // RFC4898 tcpEStatsStackDSACKDups
    pub tcpi_reord_seen: u32,    // reordering events seen

    /// Out-of-order packets received.
    pub tcpi_rcv_ooopack: u32,

    /// Peer's advertised receive window after scaling (bytes).
    pub tcpi_snd_wnd: u32,
}

impl Default for TcpInfo {
    /// The report of a connection that nothing is known of.
    fn default() -> (r: Self)
        ensures
            r.tcpi_state == 0,
            r.tcpi_ca_state == 0,
            r.tcpi_retransmits == 0,
            r.tcpi_probes == 0,
            r.tcpi_backoff == 0,
            r.tcpi_options == 0,
            r.tcpi_snd_rcv_wscale == 0,
            r.tcpi_delivery_rate_app_limited_and_fastopen_client_fail == 0,
            r.tcpi_rto == 0,
            r.tcpi_ato == 0,
            r.tcpi_snd_mss == 0,
            r.tcpi_rcv_mss == 0,
            r.tcpi_unacked == 0,
            r.tcpi_sacked == 0,
            r.tcpi_lost == 0,
            r.tcpi_retrans == 0,
            r.tcpi_fackets == 0,
            r.tcpi_last_data_sent == 0,
            r.tcpi_last_ack_sent == 0,
            r.tcpi_last_data_recv == 0,
            r.tcpi_last_ack_recv == 0,
            r.tcpi_pmtu == 0,
            r.tcpi_rcv_ssthresh == 0,
            r.tcpi_rtt == 0,
            r.tcpi_rttvar == 0,
            r.tcpi_snd_ssthresh == 0,
            r.tcpi_snd_cwnd == 0,
            r.tcpi_advmss == 0,
            r.tcpi_reordering == 0,
            r.tcpi_rcv_rtt == 0,
            r.tcpi_rcv_space == 0,
            r.tcpi_total_retrans == 0,
            r.tcpi_pacing_rate == 0,
            r.tcpi_max_pacing_rate == 0,
            r.tcpi_bytes_acked == 0,
            r.tcpi_bytes_received == 0,
            r.tcpi_segs_out == 0,
            r.tcpi_segs_in == 0,
            r.tcpi_notsent_bytes == 0,
            r.tcpi_min_rtt == 0,
            r.tcpi_data_segs_in == 0,
            r.tcpi_data_segs_out == 0,
            r.tcpi_delivery_rate == 0,
            r.tcpi_busy_time == 0,
            r.tcpi_rwnd_limited == 0,
            r.tcpi_sndbuf_limited == 0,
            r.tcpi_delivered == 0,
            r.tcpi_delivered_ce == 0,
            r.tcpi_bytes_sent == 0,
            r.tcpi_bytes_retrans == 0,
            r.tcpi_dsack_dups == 0,
            r.tcpi_reord_seen == 0,
            r.tcpi_rcv_ooopack == 0,
            r.tcpi_snd_wnd == 0,
    {
        TcpInfo {
            tcpi_state: 0,
            tcpi_ca_state: 0,
            tcpi_retransmits: 0,
            tcpi_probes: 0,
            tcpi_backoff: 0,
            tcpi_options: 0,
            tcpi_snd_rcv_wscale: 0,
            tcpi_delivery_rate_app_limited_and_fastopen_client_fail: 0,
            tcpi_rto: 0,
            tcpi_ato: 0,
            tcpi_snd_mss: 0,
            tcpi_rcv_mss: 0,
            tcpi_unacked: 0,
            tcpi_sacked: 0,
            tcpi_lost: 0,
            tcpi_retrans: 0,
            tcpi_fackets: 0,
            tcpi_last_data_sent: 0,
            tcpi_last_ack_sent: 0,
            tcpi_last_data_recv: 0,
            tcpi_last_ack_recv: 0,
            tcpi_pmtu: 0,
            tcpi_rcv_ssthresh: 0,
            tcpi_rtt: 0,
            tcpi_rttvar: 0,
            tcpi_snd_ssthresh: 0,
            tcpi_snd_cwnd: 0,
            tcpi_advmss: 0,
            tcpi_reordering: 0,
            tcpi_rcv_rtt: 0,
            tcpi_rcv_space: 0,
            tcpi_total_retrans: 0,
            tcpi_pacing_rate: 0,
            tcpi_max_pacing_rate: 0,
            tcpi_bytes_acked: 0,
            tcpi_bytes_received: 0,
            tcpi_segs_out: 0,
            tcpi_segs_in: 0,
            tcpi_notsent_bytes: 0,
            tcpi_min_rtt: 0,
            tcpi_data_segs_in: 0,
            tcpi_data_segs_out: 0,
            tcpi_delivery_rate: 0,
            tcpi_busy_time: 0,
            tcpi_rwnd_limited: 0,
            tcpi_sndbuf_limited: 0,
            tcpi_delivered: 0,
            tcpi_delivered_ce: 0,
            tcpi_bytes_sent: 0,
            tcpi_bytes_retrans: 0,
            tcpi_dsack_dups: 0,
            tcpi_reord_seen: 0,
            tcpi_rcv_ooopack: 0,
            tcpi_snd_wnd: 0,
        }
    }
}

} // verus!
