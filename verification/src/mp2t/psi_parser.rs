//! Reassembly of PSI sections from the payloads of transport packets.

use crate::context::{Context, ContextView};
use crate::crc::{crc32_mpeg2, mpeg2};
use crate::internal::bitfield::{bits_u16, field};
use crate::internal::cursor::{advance, be16, get_u16, get_u8, lemma_big_endian_2};
use crate::mp2t::ts_parser::TsPacket;
use crate::stats::Stats;
use vstd::prelude::*;
use vstd::slice::slice_subrange;

verus! {

/// The largest value of the length field of a section.
pub const MAX_SECTION_LEN: usize = 1021;

/// Length of the checksum at the end of a section.
pub const CRC_LEN: usize = 4;

/// A bound above the length of every section, header included.
pub const MAX_PSI_LEN: usize = 1024;

/// Reassembler of the sections with one table id on one PID.
pub struct PsiParser {
    table_id: u8,
    data: Vec<u8>,
    started: bool,
}

/// A reassembler as a mathematical value.
pub struct PsiState {
    /// The table id that sections must carry.
    pub table_id: u8,
    /// What was gathered of the section in progress.
    pub data: Seq<u8>,
    /// Whether the start of a section was seen and the section is not yet
    /// complete.
    pub started: bool,
}

/// What a packet did to the section in progress.
pub enum PsiOutcome {
    /// The packet belongs to a section whose start was not seen.
    Skipped,
    /// More bytes are needed.
    Waiting,
    /// The section is not valid.
    Invalid,
    /// The checksum of the section is not zero.
    BadCrc,
    /// The section is complete; this is its body, without the three header
    /// bytes and without the checksum.
    Section(Seq<u8>),
}

/// The value of the length field in the header of a section.
pub open spec fn section_len(buf: Seq<u8>) -> int {
    field(be16(buf, 1), 11, 0)
}

/// What the gathered bytes amount to. The header of a section is its table
/// id and, in the lower twelve bits of the next two bytes, the number of
/// bytes that follow. A section with another table id than the expected one
/// is invalid, and so is one that announces more than 1021 bytes or fewer
/// than its checksum takes. A complete section is accepted where the
/// checksum over the whole of it is zero; bytes behind it are passed over.
pub open spec fn judge(table_id: u8, buf: Seq<u8>) -> PsiOutcome {
    let psi_len = section_len(buf) + 3;
    if buf.len() < 3 {
        PsiOutcome::Waiting
    } else if buf[0] != table_id {
        PsiOutcome::Invalid
    } else if section_len(buf) > MAX_SECTION_LEN || section_len(buf) < CRC_LEN {
        PsiOutcome::Invalid
    } else if buf.len() < psi_len {
        PsiOutcome::Waiting
    } else if crc32_mpeg2(buf.take(psi_len)) != 0 {
        PsiOutcome::BadCrc
    } else {
        PsiOutcome::Section(buf.subrange(3, psi_len - CRC_LEN))
    }
}

/// The bytes gathered once a payload has arrived. A payload that starts a
/// section begins with a pointer field, which counts the bytes to pass over
/// before the section; `None` where it points past the payload.
pub open spec fn gather(s: PsiState, payload_start: bool, payload: Seq<u8>) -> Option<Seq<u8>> {
    if !payload_start {
        Some(s.data + payload)
    } else if payload.len() < 1 || payload[0] as int > payload.len() - 1 {
        None
    } else {
        Some(payload.skip(1 + payload[0] as int))
    }
}

/// What a packet does to the section in progress.
pub open spec fn outcome(s: PsiState, payload_start: bool, payload: Seq<u8>) -> PsiOutcome {
    if !s.started && !payload_start {
        PsiOutcome::Skipped
    } else {
        match gather(s, payload_start, payload) {
            None => PsiOutcome::Invalid,
            Some(buf) => judge(s.table_id, buf),
        }
    }
}

/// The reassembler after a packet: it goes on gathering while it waits for
/// more bytes, and starts afresh after a section and after a failure.
pub open spec fn psi_step(s: PsiState, payload_start: bool, payload: Seq<u8>) -> PsiState {
    match outcome(s, payload_start, payload) {
        PsiOutcome::Skipped => s,
        PsiOutcome::Waiting => PsiState {
            data: gather(s, payload_start, payload).unwrap(),
            started: true,
            ..s
        },
        _ => PsiState { data: Seq::empty(), started: false, ..s },
    }
}

/// The reassembler after `parse` alone, which leaves the cleaning up after a
/// failure to its caller.
pub open spec fn psi_parsed(s: PsiState, payload_start: bool, payload: Seq<u8>) -> PsiState {
    match outcome(s, payload_start, payload) {
        PsiOutcome::Skipped => s,
        PsiOutcome::Section(_) => PsiState { data: Seq::empty(), started: false, ..s },
        _ => PsiState {
            data: match gather(s, payload_start, payload) {
                Some(buf) => buf,
                None => Seq::empty(),
            },
            started: true,
            ..s
        },
    }
}

/// The counters after `parse` alone.
pub open spec fn stats_parsed(stats: Stats, o: PsiOutcome) -> Stats {
    match o {
        PsiOutcome::Skipped => Stats {
            skipped_unstarted_psi_pkts: (stats.skipped_unstarted_psi_pkts + 1) as u64,
            ..stats
        },
        PsiOutcome::BadCrc => Stats { psi_crc_errors: (stats.psi_crc_errors + 1) as u64, ..stats },
        _ => stats,
    }
}

/// The counters after a packet.
pub open spec fn stats_after(stats: Stats, o: PsiOutcome) -> Stats {
    let parsed = stats_parsed(stats, o);
    match o {
        PsiOutcome::Invalid | PsiOutcome::BadCrc => Stats {
            invalid_psi: (stats.invalid_psi + 1) as u64,
            ..parsed
        },
        _ => parsed,
    }
}

impl View for PsiParser {
    type V = PsiState;

    closed spec fn view(&self) -> PsiState {
        PsiState { table_id: self.table_id, data: self.data@, started: self.started }
    }
}

impl PsiParser {
    /// What holds of every reassembler between two packets: the bytes it
    /// keeps are fewer than a whole section, and none without a section in
    /// progress.
    pub open spec fn wf(&self) -> bool {
        &&& self@.data.len() < MAX_PSI_LEN
        &&& !self@.started ==> self@.data.len() == 0
    }

    /// A reassembler for sections with the given table id.
    pub fn new(table_id: u8) -> (p: PsiParser)
        ensures
            p.wf(),
            p@ == (PsiState { table_id, data: Seq::empty(), started: false }),
    {
        PsiParser { table_id, data: Vec::new(), started: false }
    }

    /// The table id that sections must carry.
    pub fn table_id(&self) -> (id: u8)
        ensures
            id == self@.table_id,
    {
        self.table_id
    }

    /// Discards the section in progress.
    pub fn reset(&mut self)
        ensures
            final(self).wf(),
            final(self)@ == (PsiState { data: Seq::empty(), started: false, ..old(self)@ }),
    {
        self.data.clear();
        self.started = false;
    }

    /// Takes in the payload of one packet, all but the cleaning up after a
    /// failure. The result is `Err` on a failure, and else the body of the
    /// section that the packet completed, if it completed one.
    pub fn parse<'p>(&mut self, ctx: &mut Context, pkt: &TsPacket<'p>) -> (r: Result<
        Option<Vec<u8>>,
        (),
    >)
        requires
            old(self).wf(),
            pkt@.payload.len() + MAX_PSI_LEN <= usize::MAX,
            old(ctx).stats.skipped_unstarted_psi_pkts < u64::MAX,
            old(ctx).stats.psi_crc_errors < u64::MAX,
        ensures
            final(self)@ == psi_parsed(old(self)@, pkt@.payload_start, pkt@.payload),
            final(ctx)@ == (ContextView {
                stats: stats_parsed(
                    old(ctx).stats,
                    outcome(old(self)@, pkt@.payload_start, pkt@.payload),
                ),
                ..old(ctx)@
            }),
            match outcome(old(self)@, pkt@.payload_start, pkt@.payload) {
                PsiOutcome::Skipped | PsiOutcome::Waiting => r == Ok::<Option<Vec<u8>>, ()>(None),
                PsiOutcome::Invalid | PsiOutcome::BadCrc => r is Err,
                PsiOutcome::Section(body) => r is Ok && r.unwrap() is Some
                    && r.unwrap().unwrap()@ == body,
            },
    {
        if !self.started && !pkt.payload_start {
            ctx.stats.skipped_unstarted_psi_pkts += 1;
            // Not an error: the stream was most likely joined in the middle
            // of a section.
            return Ok(None);
        }
        let mut pkt_data = pkt.payload;
        if pkt.payload_start {
            self.data.clear();
            self.started = true;
            if pkt_data.len() < 1 {
                return Err(());
            }
            let (pointer_byte, rest) = get_u8(pkt_data);
            let pointer_field = pointer_byte as usize;
            if rest.len() < pointer_field {
                return Err(());
            }
            // The pointer field counts the bytes to discard.
            pkt_data = advance(rest, pointer_field);
            assert(pkt_data@ =~= pkt@.payload.skip(1 + pointer_field));
        }
        self.data.extend_from_slice(pkt_data);
        let ghost buf = self.data@;
        assert(gather(old(self)@, pkt@.payload_start, pkt@.payload) == Some(buf)) by {
            if pkt.payload_start {
                assert(Seq::<u8>::empty() + pkt_data@ =~= pkt_data@);
            }
        }
        if self.data.len() < 3 {
            // Not enough data to look at the header yet.
            return Ok(None);
        }
        let table_id = self.data[0];
        if table_id != self.table_id {
            return Err(());
        }
        let (word, _) = get_u16(slice_subrange(self.data.as_slice(), 1, 3));
        let section_len = bits_u16(word, 11, 0) as usize;
        proof {
            let pair = buf.subrange(1, 3);
            lemma_big_endian_2(pair);
            assert(be16(pair, 0) == be16(buf, 1));
        }
        if section_len > MAX_SECTION_LEN || section_len < CRC_LEN {
            return Err(());
        }
        let psi_len = section_len + 3;
        if self.data.len() < psi_len {
            // Wait for the rest of the section.
            return Ok(None);
        }
        let psi = slice_subrange(self.data.as_slice(), 0, psi_len);
        assert(psi@ =~= buf.take(psi_len as int));
        let crc_sum = mpeg2(psi);
        if crc_sum != 0 {
            ctx.stats.psi_crc_errors += 1;
            return Err(());
        }
        // The body starts behind the length field and ends before the
        // checksum.
        let body = slice_subrange(psi, 3, psi_len - CRC_LEN);
        assert(body@ =~= buf.subrange(3, psi_len - CRC_LEN));
        let mut section: Vec<u8> = Vec::new();
        section.extend_from_slice(body);
        assert(section@ =~= body@);
        self.data.clear();
        self.started = false;
        Ok(Some(section))
    }

    /// Takes in the payload of one packet. The result is the body of the
    /// section that the packet completed, if it completed one.
    pub fn on_pkt<'p>(&mut self, ctx: &mut Context, pkt: &TsPacket<'p>) -> (r: Option<Vec<u8>>)
        requires
            old(self).wf(),
            pkt@.payload.len() + MAX_PSI_LEN <= usize::MAX,
            old(ctx).stats.skipped_unstarted_psi_pkts < u64::MAX,
            old(ctx).stats.psi_crc_errors < u64::MAX,
            old(ctx).stats.invalid_psi < u64::MAX,
        ensures
            final(self).wf(),
            final(self)@ == psi_step(old(self)@, pkt@.payload_start, pkt@.payload),
            final(ctx)@ == (ContextView {
                stats: stats_after(
                    old(ctx).stats,
                    outcome(old(self)@, pkt@.payload_start, pkt@.payload),
                ),
                ..old(ctx)@
            }),
            match r {
                Some(body) => outcome(old(self)@, pkt@.payload_start, pkt@.payload)
                    == PsiOutcome::Section(body@),
                None => !(outcome(old(self)@, pkt@.payload_start, pkt@.payload) is Section),
            },
    {
        match self.parse(ctx, pkt) {
            Ok(section) => section,
            Err(_) => {
                ctx.stats.invalid_psi += 1;
                self.data.clear();
                self.started = false;
                None
            },
        }
    }
}

/// A section that is complete, carries the expected table id and has a
/// length within bounds is accepted exactly where the checksum over the
/// whole of it, header and checksum field included, is zero.
pub proof fn lemma_accepted_iff_crc_is_zero(table_id: u8, buf: Seq<u8>)
    requires
        buf.len() >= 3,
        buf[0] == table_id,
        CRC_LEN <= section_len(buf) <= MAX_SECTION_LEN,
        buf.len() >= section_len(buf) + 3,
    ensures
        judge(table_id, buf) is Section <==> crc32_mpeg2(buf.take(section_len(buf) + 3)) == 0,
        judge(table_id, buf) is Section ==> judge(table_id, buf) == PsiOutcome::Section(
            buf.subrange(3, section_len(buf) + 3 - CRC_LEN),
        ),
{
}

/// What is decided of gathered bytes stays decided when more bytes follow.
pub proof fn lemma_judge_is_stable(table_id: u8, part: Seq<u8>, whole: Seq<u8>)
    requires
        part.len() <= whole.len(),
        part == whole.take(part.len() as int),
    ensures
        judge(table_id, part) is Waiting || judge(table_id, part) == judge(table_id, whole),
{
    if part.len() >= 3 {
        assert(part[0] == whole[0]);
        assert(part[1] == whole[1]);
        assert(part[2] == whole[2]);
        let psi_len = section_len(part) + 3;
        if part.len() >= psi_len && CRC_LEN <= section_len(part) <= MAX_SECTION_LEN {
            assert(part.take(psi_len) =~= whole.take(psi_len));
            assert(part.subrange(3, psi_len - CRC_LEN) =~= whole.subrange(3, psi_len - CRC_LEN));
        }
    }
}

/// The section that an outcome delivers, if it delivers one.
pub open spec fn delivered(o: PsiOutcome) -> Seq<Seq<u8>> {
    match o {
        PsiOutcome::Section(body) => seq![body],
        _ => Seq::empty(),
    }
}

/// A payload that starts a section may arrive in three packets instead of
/// one: where the first of them holds the pointer field and the bytes that
/// it passes over, the same section is delivered, or none in both cases.
pub proof fn lemma_split_in_three(s: PsiState, payload: Seq<u8>, a: int, b: int)
    requires
        payload.len() >= 1,
        1 + payload[0] <= a <= b <= payload.len(),
    ensures
        ({
            let first = payload.take(a);
            let second = payload.subrange(a, b);
            let third = payload.skip(b);
            let s1 = psi_step(s, true, first);
            let s2 = psi_step(s1, false, second);
            delivered(outcome(s, true, first)) + delivered(outcome(s1, false, second))
                + delivered(outcome(s2, false, third)) == delivered(outcome(s, true, payload))
        }),
{
    let first = payload.take(a);
    let second = payload.subrange(a, b);
    let third = payload.skip(b);
    let s1 = psi_step(s, true, first);
    let s2 = psi_step(s1, false, second);
    let o1 = outcome(s, true, first);
    let o2 = outcome(s1, false, second);
    let o3 = outcome(s2, false, third);
    let skip = 1 + payload[0] as int;
    let whole = payload.skip(skip);
    let g1 = first.skip(skip);
    let g2 = g1 + second;
    let none = Seq::<Seq<u8>>::empty();
    assert(first[0] == payload[0]);
    assert(gather(s, true, payload) == Some(whole));
    assert(gather(s, true, first) == Some(g1));
    assert(g1 =~= whole.take(g1.len() as int));
    assert(g2 =~= whole.take(g2.len() as int));
    assert(g2 + third =~= whole);
    lemma_judge_is_stable(s.table_id, g1, whole);
    lemma_judge_is_stable(s.table_id, g2, whole);
    assert(o1 == judge(s.table_id, g1));
    if o1 is Waiting {
        assert(s1.started && s1.data == g1 && s1.table_id == s.table_id);
        assert(gather(s1, false, second) == Some(g2));
        assert(o2 == judge(s.table_id, g2));
        if o2 is Waiting {
            assert(s2.started && s2.data == g2 && s2.table_id == s.table_id);
            assert(gather(s2, false, third) == Some(g2 + third));
            assert(o3 == judge(s.table_id, whole));
            assert(none + none + delivered(o3) =~= delivered(o3));
        } else {
            assert(!s2.started);
            assert(o3 is Skipped);
            assert(none + delivered(o2) + none =~= delivered(o2));
        }
    } else {
        assert(!s1.started);
        assert(o2 is Skipped);
        assert(s2 == s1);
        assert(o3 is Skipped);
        assert(delivered(o1) + none + none =~= delivered(o1));
    }
}

} // verus!
