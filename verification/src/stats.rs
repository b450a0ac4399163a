//! Counters of everything the demultiplexer dropped or flagged.

use vstd::prelude::*;

verus! {

/// Counters that only ever grow. Each names one kind of irregularity in the
/// input; none of them stops the demultiplexer.
#[derive(Clone, Copy, Debug, PartialEq, Eq, Structural)]
pub struct Stats {
    /// Bytes dropped while looking for a packet boundary.
    pub unsynchronized_bytes: u64,
    /// Packets that began with a sync byte but did not decode.
    pub malformed_ts_packets: u64,
    /// Packets that repeated the continuity counter of their predecessor.
    pub duplicate_ts_packets: u64,
    /// Packets on a PID that nothing listens to.
    pub ignored_ts_packets: u64,
    /// Jumps of the continuity counter.
    pub continuity_counter_errors: u64,
    /// Sections that were discarded as invalid.
    pub invalid_psi: u64,
    /// Program map sections that did not decode.
    pub invalid_pmt: u64,
    /// Sections whose checksum did not come out as zero.
    pub psi_crc_errors: u64,
    /// Packets of a section whose start was never seen.
    pub skipped_unstarted_psi_pkts: u64,
}

impl Stats {
    /// All counters at zero.
    pub open spec fn zero() -> Stats {
        Stats {
            unsynchronized_bytes: 0,
            malformed_ts_packets: 0,
            duplicate_ts_packets: 0,
            ignored_ts_packets: 0,
            continuity_counter_errors: 0,
            invalid_psi: 0,
            invalid_pmt: 0,
            psi_crc_errors: 0,
            skipped_unstarted_psi_pkts: 0,
        }
    }

    /// The counters of `self` and `other` added up, one by one.
    pub open spec fn plus(self, other: Stats) -> Stats {
        Stats {
            unsynchronized_bytes: (self.unsynchronized_bytes + other.unsynchronized_bytes) as u64,
            malformed_ts_packets: (self.malformed_ts_packets + other.malformed_ts_packets) as u64,
            duplicate_ts_packets: (self.duplicate_ts_packets + other.duplicate_ts_packets) as u64,
            ignored_ts_packets: (self.ignored_ts_packets + other.ignored_ts_packets) as u64,
            continuity_counter_errors: (self.continuity_counter_errors
                + other.continuity_counter_errors) as u64,
            invalid_psi: (self.invalid_psi + other.invalid_psi) as u64,
            invalid_pmt: (self.invalid_pmt + other.invalid_pmt) as u64,
            psi_crc_errors: (self.psi_crc_errors + other.psi_crc_errors) as u64,
            skipped_unstarted_psi_pkts: (self.skipped_unstarted_psi_pkts
                + other.skipped_unstarted_psi_pkts) as u64,
        }
    }

    /// No counter exceeds `n`.
    pub open spec fn within(self, n: int) -> bool {
        &&& self.unsynchronized_bytes <= n
        &&& self.malformed_ts_packets <= n
        &&& self.duplicate_ts_packets <= n
        &&& self.ignored_ts_packets <= n
        &&& self.continuity_counter_errors <= n
        &&& self.invalid_psi <= n
        &&& self.invalid_pmt <= n
        &&& self.psi_crc_errors <= n
        &&& self.skipped_unstarted_psi_pkts <= n
    }

    /// No counter of `self` is below its value in `before`.
    pub open spec fn grown_from(self, before: Stats) -> bool {
        &&& self.unsynchronized_bytes >= before.unsynchronized_bytes
        &&& self.malformed_ts_packets >= before.malformed_ts_packets
        &&& self.duplicate_ts_packets >= before.duplicate_ts_packets
        &&& self.ignored_ts_packets >= before.ignored_ts_packets
        &&& self.continuity_counter_errors >= before.continuity_counter_errors
        &&& self.invalid_psi >= before.invalid_psi
        &&& self.invalid_pmt >= before.invalid_pmt
        &&& self.psi_crc_errors >= before.psi_crc_errors
        &&& self.skipped_unstarted_psi_pkts >= before.skipped_unstarted_psi_pkts
    }
}

impl Default for Stats {
    fn default() -> (s: Stats)
        ensures
            s == Stats::zero(),
    {
        Stats {
            unsynchronized_bytes: 0,
            malformed_ts_packets: 0,
            duplicate_ts_packets: 0,
            ignored_ts_packets: 0,
            continuity_counter_errors: 0,
            invalid_psi: 0,
            invalid_pmt: 0,
            psi_crc_errors: 0,
            skipped_unstarted_psi_pkts: 0,
        }
    }
}

} // verus!
