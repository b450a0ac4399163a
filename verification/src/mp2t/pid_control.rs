//! Continuity of the packets on one PID.

use crate::context::{Context, ContextView};
use crate::mp2t::ts_parser::TsPacket;
use crate::stats::Stats;
use vstd::prelude::*;

verus! {

/// What the continuity check hands on.
pub enum Event<'a> {
    /// A packet to take in.
    TsPacket(&'a TsPacket<'a>),
    /// The stream jumped: whatever is in progress is to be discarded.
    Reset,
}

/// What the continuity check makes of a packet.
pub enum Verdict {
    /// The packet is handed on.
    Deliver,
    /// The packet repeats its predecessor and is dropped.
    Duplicate,
    /// The counter jumped: a reset is handed on, and then the packet.
    Discontinuity,
}

/// The counter that follows `cc`.
pub open spec fn successor(cc: u8) -> int {
    (cc + 1) % 16
}

/// What the check makes of a packet with the counter `cc`, where `last` is
/// the counter of the last packet with a payload. A packet without a payload
/// is handed on whatever its counter.
pub open spec fn verdict(last: Option<u8>, cc: u8, has_payload: bool) -> Verdict {
    if !has_payload {
        Verdict::Deliver
    } else {
        match last {
            None => Verdict::Deliver,
            Some(l) => if cc == successor(l) {
                Verdict::Deliver
            } else if cc == l {
                Verdict::Duplicate
            } else {
                Verdict::Discontinuity
            },
        }
    }
}

/// The counter that the check remembers after a packet: that of the packet,
/// unless it has no payload or is a duplicate.
pub open spec fn remembered(last: Option<u8>, cc: u8, has_payload: bool) -> Option<u8> {
    if !has_payload || verdict(last, cc, has_payload) is Duplicate {
        last
    } else {
        Some(cc)
    }
}

/// The counters after a packet.
pub open spec fn stats_after(stats: Stats, v: Verdict) -> Stats {
    match v {
        Verdict::Deliver => stats,
        Verdict::Duplicate => Stats {
            duplicate_ts_packets: (stats.duplicate_ts_packets + 1) as u64,
            ..stats
        },
        Verdict::Discontinuity => Stats {
            continuity_counter_errors: (stats.continuity_counter_errors + 1) as u64,
            ..stats
        },
    }
}

/// What is handed on for a packet, in order.
pub open spec fn handed_on<'a>(v: Verdict, pkt: &'a TsPacket<'a>) -> Seq<Event<'a>> {
    match v {
        Verdict::Deliver => seq![Event::TsPacket(pkt)],
        Verdict::Duplicate => Seq::empty(),
        Verdict::Discontinuity => seq![Event::Reset, Event::TsPacket(pkt)],
    }
}

/// The continuity check of one PID (ISO/IEC 13818-1, 2.4.3.3).
pub struct PidControl {
    continuity_counter: Option<u8>,
}

impl View for PidControl {
    type V = Option<u8>;

    closed spec fn view(&self) -> Option<u8> {
        self.continuity_counter
    }
}

impl PidControl {
    /// A check that has seen no packet.
    pub fn new() -> (p: PidControl)
        ensures
            p@ is None,
    {
        PidControl { continuity_counter: None }
    }

    /// Checks one packet. The result is what is handed on, in order.
    pub fn parse_pkt<'a>(&mut self, ctx: &mut Context, pkt: &'a TsPacket<'a>) -> (r: Vec<
        Event<'a>,
    >)
        requires
            old(ctx).stats.duplicate_ts_packets < u64::MAX,
            old(ctx).stats.continuity_counter_errors < u64::MAX,
        ensures
            r@ == handed_on(
                verdict(old(self)@, pkt.continuity_counter, pkt@.payload.len() > 0),
                pkt,
            ),
            final(self)@ == remembered(
                old(self)@,
                pkt.continuity_counter,
                pkt@.payload.len() > 0,
            ),
            final(ctx)@ == (ContextView {
                stats: stats_after(
                    old(ctx).stats,
                    verdict(old(self)@, pkt.continuity_counter, pkt@.payload.len() > 0),
                ),
                ..old(ctx)@
            }),
    {
        let mut out: Vec<Event<'a>> = Vec::new();
        // An empty payload stands for an adaptation field control of '10' or
        // '00'.
        if pkt.payload.len() > 0 {
            if let Some(cc) = self.continuity_counter {
                let expected_cc: u8 = if cc % 16 == 15 {
                    0
                } else {
                    cc % 16 + 1
                };
                if pkt.continuity_counter != expected_cc {
                    if pkt.continuity_counter == cc {
                        ctx.stats.duplicate_ts_packets += 1;
                        assert(out@ =~= Seq::<Event<'a>>::empty());
                        return out;
                    }
                    ctx.stats.continuity_counter_errors += 1;
                    out.push(Event::Reset);
                }
            }
            self.continuity_counter = Some(pkt.continuity_counter);
        }
        out.push(Event::TsPacket(pkt));
        assert(out@ =~= handed_on(
            verdict(old(self)@, pkt.continuity_counter, pkt@.payload.len() > 0),
            pkt,
        ));
        out
    }
}

/// A packet with a payload that repeats the counter of the packet before it
/// is dropped, whatever came earlier.
pub proof fn lemma_repeated_packet_is_dropped(last: Option<u8>, cc: u8)
    ensures
        verdict(remembered(last, cc, true), cc, true) is Duplicate,
        remembered(remembered(last, cc, true), cc, true) == remembered(last, cc, true),
{
}

/// Of two equal packets with a payload that come first on a PID, the first is
/// handed on alone, the second is dropped, and one duplicate is counted.
pub proof fn lemma_same_packet_twice<'a>(pkt: &'a TsPacket<'a>, stats: Stats)
    requires
        pkt@.payload.len() > 0,
        stats.duplicate_ts_packets < u64::MAX,
    ensures
        ({
            let cc = pkt.continuity_counter;
            let first = verdict(None, cc, true);
            let second = verdict(remembered(None, cc, true), cc, true);
            &&& handed_on(first, pkt) + handed_on(second, pkt) == seq![Event::TsPacket(pkt)]
            &&& stats_after(stats_after(stats, first), second) == Stats {
                duplicate_ts_packets: (stats.duplicate_ts_packets + 1) as u64,
                ..stats
            }
        }),
{
    let cc = pkt.continuity_counter;
    let first = verdict(None, cc, true);
    let second = verdict(remembered(None, cc, true), cc, true);
    assert(handed_on(first, pkt) + handed_on(second, pkt) =~= seq![Event::TsPacket(pkt)]);
}

} // verus!
