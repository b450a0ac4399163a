//! Transport packets: decoding of one packet, and recovery of packet
//! boundaries from a stream of bytes.

use crate::internal::bitfield::{
    bit_u32, bit_u64, bits_u32, bits_u64, field, flag, lemma_field_bound,
};
use crate::internal::cursor::{
    advance, be32, be48, get_u32, get_u8, get_uint, lemma_big_endian_4, lemma_big_endian_6,
};
use crate::context::{Context, ContextView};
use crate::internal::byte_queue::ByteQueue;
use crate::stats::Stats;
use vstd::arithmetic::power2::{lemma2_to64, lemma2_to64_rest};
use vstd::prelude::*;

verus! {

/// Length of a transport packet.
pub const PACKET_SIZE: usize = 188;

/// The byte that every transport packet starts with.
pub const HEADER_SYNC_WORD: u8 = 0x47;

/// A decoded transport packet. Payload and raw data borrow from the bytes
/// that were decoded.
#[derive(Default)]
pub struct TsPacket<'a> {
    /// Offset of the packet from the start of the input.
    pub pos: i64,
    pub payload: &'a [u8],
    pub raw_data: &'a [u8],
    pub pid: u16,
    /// Program clock reference in units of 27 MHz.
    pub pcr: Option<u64>,
    pub continuity_counter: u8,
    pub payload_start: bool,
    pub discontinuity: bool,
    pub random_access: bool,
}

/// A transport packet as a mathematical value.
pub struct PacketView {
    pub pos: i64,
    pub payload: Seq<u8>,
    pub raw_data: Seq<u8>,
    pub pid: u16,
    pub pcr: Option<u64>,
    pub continuity_counter: u8,
    pub payload_start: bool,
    pub discontinuity: bool,
    pub random_access: bool,
}

impl<'a> View for TsPacket<'a> {
    type V = PacketView;

    open spec fn view(&self) -> PacketView {
        PacketView {
            pos: self.pos,
            payload: self.payload@,
            raw_data: self.raw_data@,
            pid: self.pid,
            pcr: self.pcr,
            continuity_counter: self.continuity_counter,
            payload_start: self.payload_start,
            discontinuity: self.discontinuity,
            random_access: self.random_access,
        }
    }
}

/// The four header bytes of a packet as one number.
pub open spec fn header(data: Seq<u8>) -> int {
    be32(data, 0)
}

/// Whether the header announces an adaptation field.
pub open spec fn has_adaptation_field(data: Seq<u8>) -> bool {
    flag(header(data), 5)
}

/// Whether the header announces a payload.
pub open spec fn has_payload(data: Seq<u8>) -> bool {
    flag(header(data), 4)
}

/// The clock value in the six bytes of a program clock reference: a base of
/// 33 bits in units of 90 kHz, six reserved bits, and an extension of nine
/// bits in units of 27 MHz.
pub open spec fn pcr_value(t: int) -> u64 {
    (field(t, 47, 15) * 300 + field(t, 8, 0)) as u64
}

/// Bytes of a packet behind the length byte of its adaptation field.
pub open spec fn after_length_byte() -> int {
    PACKET_SIZE - 5
}

/// What the 188 bytes of a packet decode to. `None` where the first byte is
/// not the sync byte and where the adaptation field does not fit: without a
/// payload it must fill the packet, with one it must leave room for it.
pub open spec fn decode_packet(data: Seq<u8>) -> Option<PacketView>
    recommends
        data.len() == PACKET_SIZE,
{
    let plain = PacketView {
        pos: 0,
        payload: Seq::empty(),
        raw_data: data,
        pid: field(header(data), 20, 8) as u16,
        pcr: None,
        continuity_counter: field(header(data), 3, 0) as u8,
        payload_start: flag(header(data), 22),
        discontinuity: false,
        random_access: false,
    };
    let af_len = data[4] as int;
    if data[0] != HEADER_SYNC_WORD {
        None
    } else if !has_adaptation_field(data) {
        if has_payload(data) {
            Some(PacketView { payload: data.skip(4), ..plain })
        } else {
            Some(plain)
        }
    } else if !has_payload(data) && af_len != after_length_byte() {
        None
    } else if has_payload(data) && af_len >= after_length_byte() {
        None
    } else if af_len == 0 {
        Some(PacketView { payload: data.skip(5), ..plain })
    } else {
        Some(
            PacketView {
                payload: data.skip(5 + af_len),
                discontinuity: flag(data[5] as int, 7),
                random_access: flag(data[5] as int, 6),
                pcr: if flag(data[5] as int, 4) {
                    Some(pcr_value(be48(data, 6)))
                } else {
                    None
                },
                ..plain
            },
        )
    }
}

/// Decodes one transport packet (ISO/IEC 13818-1, 2.4.3.2 and 2.4.3.4).
pub fn parse_packet<'a>(data: &'a [u8]) -> (r: Option<TsPacket<'a>>)
    requires
        data@.len() == PACKET_SIZE,
    ensures
        match r {
            Some(pkt) => decode_packet(data@) == Some(pkt@),
            None => decode_packet(data@) is None,
        },
{
    if data[0] != HEADER_SYNC_WORD {
        return None;
    }
    let (header, buf) = get_u32(data);
    proof {
        lemma_big_endian_4(data@);
        lemma2_to64();
        lemma_field_bound(header as int, 20, 8);
        lemma_field_bound(header as int, 3, 0);
    }
    let payload_start = bit_u32(header, 22);
    let pid = bits_u32(header, 20, 8) as u16;
    let has_adaptation_field = bit_u32(header, 5);
    let has_payload = bit_u32(header, 4);
    let continuity_counter = bits_u32(header, 3, 0) as u8;
    let empty = vstd::slice::slice_subrange(data, 0, 0);
    assert(empty@ =~= Seq::<u8>::empty());
    let mut packet = TsPacket {
        pos: 0,
        payload: empty,
        raw_data: data,
        pid,
        pcr: None,
        continuity_counter,
        payload_start,
        discontinuity: false,
        random_access: false,
    };
    if !has_adaptation_field {
        // Without an adaptation field the rest of the packet is payload,
        // where the header announces one.
        if has_payload {
            packet.payload = buf;
        }
        return Some(packet);
    }
    let (len_byte, buf) = get_u8(buf);
    let adaptation_field_len = len_byte as usize;
    assert(buf@ =~= data@.skip(5));
    // Without a payload the adaptation field takes up the whole packet; with
    // one it cannot.
    if (!has_payload && adaptation_field_len != buf.len()) || (has_payload
        && adaptation_field_len >= buf.len()) {
        return None;
    }
    // A length of zero inserts a single stuffing byte.
    if adaptation_field_len == 0 {
        packet.payload = buf;
        return Some(packet);
    }
    let (flags_byte, adaptation_field) = get_u8(buf);
    let flags = flags_byte as u64;
    packet.discontinuity = bit_u64(flags, 7);
    packet.random_access = bit_u64(flags, 6);
    let pcr_flag = bit_u64(flags, 4);
    if pcr_flag {
        assert(adaptation_field@ =~= data@.skip(6));
        let (t, _) = get_uint(adaptation_field, 6);
        proof {
            lemma_big_endian_6(data@.skip(6));
            lemma2_to64_rest();
            lemma_field_bound(t as int, 47, 15);
            lemma_field_bound(t as int, 8, 0);
        }
        let base: u64 = bits_u64(t, 47, 15);
        let extension: u64 = bits_u64(t, 8, 0);
        packet.pcr = Some(base * 300 + extension);
    }
    // Skip what is left of the adaptation field.
    packet.payload = advance(buf, adaptation_field_len);
    assert(packet.payload@ =~= data@.skip(5 + adaptation_field_len));
    Some(packet)
}

/// Whether a packet may start at index `i` of `q`: the sync byte stands there
/// and at each of the next three packet starts that `q` reaches.
pub open spec fn is_sync_point(q: Seq<u8>, i: int) -> bool {
    &&& 0 <= i < q.len()
    &&& forall|j: int|
        0 <= j < 4 && i + j * PACKET_SIZE < q.len() ==> #[trigger] q[i + j * PACKET_SIZE]
            == HEADER_SYNC_WORD
}

/// The first index from `from` on at which a packet may start.
pub open spec fn sync_from(q: Seq<u8>, from: int) -> Option<int>
    decreases q.len() - from,
{
    if from < 0 || from >= q.len() {
        None
    } else if is_sync_point(q, from) {
        Some(from)
    } else {
        sync_from(q, from + 1)
    }
}

/// The first index at which a packet may start.
pub open spec fn find_sync(q: Seq<u8>) -> Option<int> {
    sync_from(q, 0)
}

/// `sync_from` finds the least index from `from` on at which a packet may
/// start, and none where there is none.
pub proof fn lemma_sync_from(q: Seq<u8>, from: int)
    requires
        0 <= from,
    ensures
        match sync_from(q, from) {
            Some(i) => from <= i < q.len() && is_sync_point(q, i) && forall|k: int|
                from <= k < i ==> !is_sync_point(q, k),
            None => forall|k: int| from <= k ==> !is_sync_point(q, k),
        },
    decreases q.len() - from,
{
    if from < q.len() && !is_sync_point(q, from) {
        lemma_sync_from(q, from + 1);
    }
}

/// Where the search for the next packet ended.
pub struct Sought {
    /// Bytes that were dropped on the way.
    pub dropped: nat,
    /// Packets among them that began with a sync byte and did not decode.
    pub malformed: nat,
    /// What is left; a packet that decodes is at its front if it holds one.
    pub rest: Seq<u8>,
    /// Whether the front of `rest` is taken for a packet boundary.
    pub synchronized: bool,
}

impl Sought {
    /// The same end of a search that began `dropped` bytes and `malformed`
    /// packets earlier.
    pub open spec fn later(self, dropped: nat, malformed: nat) -> Sought {
        Sought {
            dropped: self.dropped + dropped,
            malformed: self.malformed + malformed,
            ..self
        }
    }
}

/// The search for the next packet in `q`. Without synchronization the bytes
/// before the first possible packet start are dropped, all of them where
/// there is none. A packet that does not decode costs one byte and the
/// synchronization. The search ends at a packet that decodes and where fewer
/// bytes than a packet are left.
pub open spec fn seek(q: Seq<u8>, synchronized: bool) -> Sought
    decreases q.len(), (if synchronized { 0int } else { 1int }),
{
    if q.len() < PACKET_SIZE {
        Sought { dropped: 0, malformed: 0, rest: q, synchronized }
    } else if !synchronized {
        match find_sync(q) {
            Some(i) => {
                proof {
                    lemma_sync_from(q, 0);
                }
                seek(q.skip(i), true).later(i as nat, 0)
            },
            None => Sought {
                dropped: q.len(),
                malformed: 0,
                rest: Seq::empty(),
                synchronized: false,
            },
        }
    } else if decode_packet(q.take(PACKET_SIZE as int)) is Some {
        Sought { dropped: 0, malformed: 0, rest: q, synchronized: true }
    } else {
        seek(q.skip(1), false).later(1, 1)
    }
}

/// Whether a packet that decodes is at the front of `q` and taken for one.
pub open spec fn packet_ready(q: Seq<u8>, synchronized: bool) -> bool {
    &&& q.len() >= PACKET_SIZE
    &&& synchronized
    &&& decode_packet(q.take(PACKET_SIZE as int)) is Some
}

/// A search accounts for every byte: each is dropped or left. No more
/// packets are malformed than bytes are dropped, and what is left holds a
/// packet only if that packet decodes.
pub proof fn lemma_seek(q: Seq<u8>, synchronized: bool)
    ensures
        seek(q, synchronized).dropped + seek(q, synchronized).rest.len() == q.len(),
        seek(q, synchronized).malformed <= seek(q, synchronized).dropped,
        seek(q, synchronized).rest.len() >= PACKET_SIZE ==> packet_ready(
            seek(q, synchronized).rest,
            seek(q, synchronized).synchronized,
        ),
        packet_ready(q, synchronized) ==> seek(q, synchronized) == (Sought {
            dropped: 0,
            malformed: 0,
            rest: q,
            synchronized,
        }),
    decreases q.len(), (if synchronized { 0int } else { 1int }),
{
    if q.len() < PACKET_SIZE {
    } else if !synchronized {
        lemma_sync_from(q, 0);
        match find_sync(q) {
            Some(i) => {
                lemma_seek(q.skip(i), true);
            },
            None => {},
        }
    } else if decode_packet(q.take(PACKET_SIZE as int)) is Some {
    } else {
        lemma_seek(q.skip(1), false);
    }
}

/// The framer: it gathers bytes and finds the packets in them.
pub struct TsParser {
    byte_queue: ByteQueue,
    synchronized: bool,
}

/// A framer as a mathematical value.
pub struct FramerState {
    /// The bytes that were pushed and not yet consumed.
    pub queue: Seq<u8>,
    /// Whether the front of the queue is taken for a packet boundary.
    pub synchronized: bool,
    /// The number of bytes consumed so far.
    pub consumed: int,
}

impl View for TsParser {
    type V = FramerState;

    closed spec fn view(&self) -> FramerState {
        FramerState {
            queue: self.byte_queue@,
            synchronized: self.synchronized,
            consumed: self.byte_queue.consumed(),
        }
    }
}

/// Whether a packet may start at index `i` of `buf`.
fn is_header_at(buf: &[u8], i: usize) -> (r: bool)
    requires
        i < buf@.len(),
    ensures
        r == is_sync_point(buf@, i as int),
{
    let room = buf.len() - i;
    let mut j: usize = 0;
    while j < 4 && j * PACKET_SIZE < room
        invariant
            j <= 4,
            i < buf@.len() <= usize::MAX,
            room == buf@.len() - i,
            forall|k: int|
                0 <= k < j && i + k * PACKET_SIZE < buf@.len() ==> #[trigger] buf@[i + k
                    * PACKET_SIZE] == HEADER_SYNC_WORD,
        decreases 4 - j,
    {
        if buf[i + j * PACKET_SIZE] != HEADER_SYNC_WORD {
            return false;
        }
        j += 1;
    }
    true
}

impl TsParser {
    /// What holds of every framer between two calls.
    pub closed spec fn wf(&self) -> bool {
        self.byte_queue.wf()
    }

    /// Whether a packet that decodes is at the front of the queue.
    pub open spec fn ready(&self) -> bool {
        packet_ready(self@.queue, self@.synchronized)
    }

    /// A framer without bytes and without synchronization.
    pub fn new() -> (p: TsParser)
        ensures
            p.wf(),
            p@ == (FramerState { queue: Seq::empty(), synchronized: false, consumed: 0 }),
    {
        TsParser { byte_queue: ByteQueue::new(), synchronized: false }
    }

    /// The number of bytes consumed so far.
    pub fn consumed(&self) -> (n: i64)
        requires
            self.wf(),
        ensures
            n == self@.consumed,
    {
        self.byte_queue.head()
    }

    /// The number of bytes that wait in the queue.
    pub fn pending(&self) -> (n: usize)
        requires
            self.wf(),
        ensures
            n == self@.queue.len(),
    {
        self.byte_queue.len()
    }

    /// The first index of the queue at which a packet may start.
    pub fn find_sync_word(&self) -> (r: Option<usize>)
        requires
            self.wf(),
        ensures
            match r {
                Some(i) => find_sync(self@.queue) == Some(i as int) && is_sync_point(
                    self@.queue,
                    i as int,
                ) && forall|k: int| 0 <= k < i ==> !is_sync_point(self@.queue, k),
                None => find_sync(self@.queue) is None && forall|k: int|
                    !is_sync_point(self@.queue, k),
            },
    {
        let buf = self.byte_queue.as_slice();
        let mut i: usize = 0;
        while i < buf.len()
            invariant
                i <= buf@.len(),
                buf@ == self@.queue,
                find_sync(buf@) == sync_from(buf@, i as int),
            decreases buf@.len() - i,
        {
            if is_header_at(buf, i) {
                proof {
                    lemma_sync_from(buf@, 0);
                }
                return Some(i);
            }
            i += 1;
        }
        proof {
            lemma_sync_from(buf@, 0);
        }
        None
    }

    /// Looks for a packet boundary: drops the bytes before the first index at
    /// which a packet may start, or all bytes where there is none, and counts
    /// them as unsynchronized.
    pub fn synchronize(&mut self, ctx: &mut Context)
        requires
            old(self).wf(),
            old(self)@.consumed + old(self)@.queue.len() <= i64::MAX,
            old(ctx).stats.unsynchronized_bytes + old(self)@.queue.len() <= u64::MAX,
        ensures
            final(self).wf(),
            final(self)@ == resynchronized(old(self)@),
            final(ctx)@ == (ContextView {
                stats: dropping(
                    old(ctx).stats,
                    (final(self)@.consumed - old(self)@.consumed) as nat,
                    0,
                ),
                ..old(ctx)@
            }),
    {
        self.synchronized = false;
        let sync_idx = self.find_sync_word();
        proof {
            lemma_sync_from(self@.queue, 0);
        }
        match sync_idx {
            Some(idx) => {
                ctx.stats.unsynchronized_bytes += idx as u64;
                self.byte_queue.pop(idx);
                self.synchronized = true;
            },
            None => {
                ctx.stats.unsynchronized_bytes += self.byte_queue.len() as u64;
                self.byte_queue.pop_all();
            },
        }
    }

    /// Drops bytes up to the next packet that decodes, or until fewer bytes
    /// than a packet are left.
    #[verifier::loop_isolation(false)]
    fn seek_packet(&mut self, ctx: &mut Context) -> (ready: bool)
        requires
            old(self).wf(),
            old(self)@.consumed + old(self)@.queue.len() <= i64::MAX,
            old(ctx).stats.unsynchronized_bytes + old(self)@.queue.len() <= u64::MAX,
            old(ctx).stats.malformed_ts_packets + old(self)@.queue.len() <= u64::MAX,
        ensures
            final(self).wf(),
            final(self)@ == sought(old(self)@),
            final(ctx)@ == (ContextView {
                stats: dropping(
                    old(ctx).stats,
                    seek(old(self)@.queue, old(self)@.synchronized).dropped,
                    seek(old(self)@.queue, old(self)@.synchronized).malformed,
                ),
                ..old(ctx)@
            }),
            ready == final(self).ready(),
            ready == (final(self)@.queue.len() >= PACKET_SIZE),
    {
        let ghost q0 = self@.queue;
        let ghost s0 = self@.synchronized;
        let ghost mut dropped: nat = 0;
        let ghost mut malformed: nat = 0;
        proof {
            lemma_seek(q0, s0);
        }
        while self.byte_queue.len() >= PACKET_SIZE
            invariant
                self.wf(),
                seek(q0, s0) == seek(self@.queue, self@.synchronized).later(dropped, malformed),
                dropped + self@.queue.len() == q0.len(),
                malformed <= dropped,
                self@.consumed == old(self)@.consumed + dropped,
                old(self)@.consumed + q0.len() <= i64::MAX,
                old(ctx).stats.unsynchronized_bytes + q0.len() <= u64::MAX,
                old(ctx).stats.malformed_ts_packets + q0.len() <= u64::MAX,
                ctx@ == (ContextView {
                    stats: dropping(old(ctx).stats, dropped, malformed),
                    ..old(ctx)@
                }),
            decreases self@.queue.len(), (if self@.synchronized { 0int } else { 1int }),
        {
            if !self.synchronized {
                let ghost before = self@;
                self.synchronize(ctx);
                proof {
                    lemma_sync_from(before.queue, 0);
                    dropped = dropped + (self@.consumed - before.consumed) as nat;
                }
            } else {
                let front = vstd::slice::slice_subrange(
                    self.byte_queue.as_slice(),
                    0,
                    PACKET_SIZE,
                );
                assert(front@ =~= self@.queue.take(PACKET_SIZE as int));
                match parse_packet(front) {
                    Some(_) => {
                        return true;
                    },
                    None => {
                        // Skip one byte, so that the same packet is not
                        // tried again, and look for the next boundary.
                        self.byte_queue.pop(1);
                        self.synchronized = false;
                        ctx.stats.malformed_ts_packets += 1;
                        ctx.stats.unsynchronized_bytes += 1;
                        proof {
                            dropped = dropped + 1;
                            malformed = malformed + 1;
                        }
                    },
                }
            }
        }
        false
    }

    /// Appends `data` and drops bytes up to the next packet that decodes.
    /// The result is whether such a packet is at the front of the queue.
    pub fn parse(&mut self, ctx: &mut Context, data: &[u8]) -> (ready: bool)
        requires
            old(self).wf(),
            old(self)@.queue.len() + data@.len() <= usize::MAX,
            old(self)@.consumed + old(self)@.queue.len() + data@.len() <= i64::MAX,
            old(ctx).stats.unsynchronized_bytes + old(self)@.queue.len() + data@.len()
                <= u64::MAX,
            old(ctx).stats.malformed_ts_packets + old(self)@.queue.len() + data@.len()
                <= u64::MAX,
        ensures
            final(self).wf(),
            final(self)@ == sought(FramerState { queue: old(self)@.queue + data@, ..old(self)@ }),
            final(ctx)@ == (ContextView {
                stats: dropping(
                    old(ctx).stats,
                    seek(old(self)@.queue + data@, old(self)@.synchronized).dropped,
                    seek(old(self)@.queue + data@, old(self)@.synchronized).malformed,
                ),
                ..old(ctx)@
            }),
            ready == final(self).ready(),
            ready == (final(self)@.queue.len() >= PACKET_SIZE),
    {
        self.byte_queue.write(data);
        self.seek_packet(ctx)
    }

    /// The packet at the front of the queue, at its offset from the start of
    /// the input; `None` where no packet that decodes is there.
    pub fn packet(&self) -> (r: Option<TsPacket<'_>>)
        requires
            self.wf(),
        ensures
            match r {
                Some(pkt) => self.ready() && pkt@ == front_packet(self@),
                None => !self.ready(),
            },
    {
        if !self.synchronized || self.byte_queue.len() < PACKET_SIZE {
            return None;
        }
        let front = vstd::slice::slice_subrange(self.byte_queue.as_slice(), 0, PACKET_SIZE);
        assert(front@ =~= self@.queue.take(PACKET_SIZE as int));
        match parse_packet(front) {
            Some(mut pkt) => {
                pkt.pos = self.byte_queue.head();
                Some(pkt)
            },
            None => None,
        }
    }

    /// Consumes the packet at the front of the queue and drops bytes up to
    /// the next packet that decodes. The result is whether such a packet is
    /// at the front of the queue.
    pub fn next_packet(&mut self, ctx: &mut Context) -> (ready: bool)
        requires
            old(self).wf(),
            old(self).ready(),
            old(self)@.consumed + old(self)@.queue.len() <= i64::MAX,
            old(ctx).stats.unsynchronized_bytes + old(self)@.queue.len() <= u64::MAX,
            old(ctx).stats.malformed_ts_packets + old(self)@.queue.len() <= u64::MAX,
        ensures
            final(self).wf(),
            final(self)@ == sought(consumed_packet(old(self)@)),
            final(ctx)@ == (ContextView {
                stats: dropping(
                    old(ctx).stats,
                    seek(old(self)@.queue.skip(PACKET_SIZE as int), true).dropped,
                    seek(old(self)@.queue.skip(PACKET_SIZE as int), true).malformed,
                ),
                ..old(ctx)@
            }),
            ready == final(self).ready(),
            ready == (final(self)@.queue.len() >= PACKET_SIZE),
    {
        self.byte_queue.pop(PACKET_SIZE);
        self.seek_packet(ctx)
    }
}

/// The counters after `dropped` more bytes were dropped and `malformed` more
/// packets did not decode.
pub open spec fn dropping(stats: Stats, dropped: nat, malformed: nat) -> Stats {
    Stats {
        unsynchronized_bytes: (stats.unsynchronized_bytes + dropped) as u64,
        malformed_ts_packets: (stats.malformed_ts_packets + malformed) as u64,
        ..stats
    }
}

/// The framer after a look for a packet boundary.
pub open spec fn resynchronized(s: FramerState) -> FramerState {
    match find_sync(s.queue) {
        Some(i) => FramerState {
            queue: s.queue.skip(i),
            synchronized: true,
            consumed: s.consumed + i,
        },
        None => FramerState {
            queue: Seq::empty(),
            synchronized: false,
            consumed: s.consumed + s.queue.len(),
        },
    }
}

/// The framer after a search for the next packet.
pub open spec fn sought(s: FramerState) -> FramerState {
    let f = seek(s.queue, s.synchronized);
    FramerState { queue: f.rest, synchronized: f.synchronized, consumed: s.consumed + f.dropped }
}

/// The framer after the packet at the front of its queue was consumed.
pub open spec fn consumed_packet(s: FramerState) -> FramerState {
    FramerState {
        queue: s.queue.skip(PACKET_SIZE as int),
        synchronized: true,
        consumed: s.consumed + PACKET_SIZE,
    }
}

/// The packet at the front of the queue, at its offset from the start of the
/// input.
pub open spec fn front_packet(s: FramerState) -> PacketView {
    PacketView {
        pos: s.consumed as i64,
        ..decode_packet(s.queue.take(PACKET_SIZE as int)).unwrap()
    }
}

/// What a framer makes of the bytes in its queue, once all packets in them
/// were consumed.
pub struct Framing {
    /// The packets that were delivered, in order, as their 188 bytes.
    pub delivered: Seq<Seq<u8>>,
    /// Bytes that were dropped.
    pub dropped: nat,
    /// Packets that began with a sync byte and did not decode.
    pub malformed: nat,
    /// The bytes that are left, fewer than a packet.
    pub rest: Seq<u8>,
    /// Whether the front of `rest` is taken for a packet boundary.
    pub synchronized: bool,
}

/// The packets in `q`, with what was dropped between them and what is left
/// behind the last.
pub open spec fn frames(q: Seq<u8>, synchronized: bool) -> Framing
    decreases q.len(),
{
    let f = seek(q, synchronized);
    if f.rest.len() < PACKET_SIZE {
        Framing {
            delivered: Seq::empty(),
            dropped: f.dropped,
            malformed: f.malformed,
            rest: f.rest,
            synchronized: f.synchronized,
        }
    } else {
        proof {
            lemma_seek(q, synchronized);
        }
        let tail = frames(f.rest.skip(PACKET_SIZE as int), true);
        Framing {
            delivered: seq![f.rest.take(PACKET_SIZE as int)] + tail.delivered,
            dropped: f.dropped + tail.dropped,
            malformed: f.malformed + tail.malformed,
            ..tail
        }
    }
}

/// Every byte of the input is accounted for: it was dropped, it belongs to a
/// delivered packet, or it is left in the queue. Each malformed packet costs
/// one dropped byte, and fewer bytes than a packet are left.
pub proof fn lemma_frames_account_for_every_byte(q: Seq<u8>, synchronized: bool)
    ensures
        frames(q, synchronized).dropped + PACKET_SIZE * frames(q, synchronized).delivered.len()
            + frames(q, synchronized).rest.len() == q.len(),
        frames(q, synchronized).malformed <= frames(q, synchronized).dropped,
        frames(q, synchronized).rest.len() < PACKET_SIZE,
    decreases q.len(),
{
    lemma_seek(q, synchronized);
    let f = seek(q, synchronized);
    if f.rest.len() >= PACKET_SIZE {
        lemma_frames_account_for_every_byte(f.rest.skip(PACKET_SIZE as int), true);
    }
}

/// Dropped bytes, the bytes of delivered packets and the count of malformed
/// packets together stay within the length of the input exactly where no
/// more packets were malformed than bytes are left in the queue.
pub proof fn lemma_frames_within_input(q: Seq<u8>, synchronized: bool)
    ensures
        (frames(q, synchronized).dropped + PACKET_SIZE * frames(
            q,
            synchronized,
        ).delivered.len() + frames(q, synchronized).malformed <= q.len()) <==> frames(
            q,
            synchronized,
        ).malformed <= frames(q, synchronized).rest.len(),
{
    lemma_frames_account_for_every_byte(q, synchronized);
}

/// The number of whole stretches of 188 bytes in `q`.
pub open spec fn whole_packets(q: Seq<u8>) -> int {
    q.len() as int / PACKET_SIZE as int
}

/// The `k`-th stretch of 188 bytes of `q`.
pub open spec fn chunk(q: Seq<u8>, k: int) -> Seq<u8> {
    q.subrange(k * PACKET_SIZE, (k + 1) * PACKET_SIZE)
}

/// The first byte of the `k`-th stretch of 188 bytes of `q`.
pub open spec fn chunk_start(q: Seq<u8>, k: int) -> u8 {
    q[k * PACKET_SIZE]
}

/// Whether `q` is the start of a stream of packets: each stretch of 188
/// bytes decodes, and the stretch that `q` breaks off in starts with the
/// sync byte.
pub open spec fn aligned(q: Seq<u8>) -> bool {
    &&& forall|k: int|
        0 <= k && (k + 1) * PACKET_SIZE <= q.len() ==> decode_packet(#[trigger] chunk(q, k))
            is Some
    &&& forall|k: int|
        0 <= k && k * PACKET_SIZE < q.len() ==> #[trigger] chunk_start(q, k)
            == HEADER_SYNC_WORD
}

/// Of a stream of packets nothing is dropped and nothing is malformed,
/// whether or not the framer was synchronized: its packets are delivered one
/// by one, and the bytes of an incomplete last packet are left.
pub proof fn lemma_aligned_input_loses_nothing(q: Seq<u8>, synchronized: bool)
    requires
        aligned(q),
    ensures
        frames(q, synchronized).dropped == 0,
        frames(q, synchronized).malformed == 0,
        frames(q, synchronized).delivered.len() == whole_packets(q),
        forall|k: int|
            0 <= k < whole_packets(q) ==> #[trigger] frames(
                q,
                synchronized,
            ).delivered[k] == chunk(q, k),
        frames(q, synchronized).rest == q.skip(whole_packets(q) * PACKET_SIZE),
        q.len() >= PACKET_SIZE ==> frames(q, synchronized).synchronized,
    decreases q.len(),
{
    if q.len() < PACKET_SIZE {
        assert(q.skip(0) =~= q);
    } else {
        assert(chunk(q, 0) =~= q.take(PACKET_SIZE as int));
        assert(packet_ready(q, true));
        if !synchronized {
            assert(is_sync_point(q, 0)) by {
                assert forall|j: int| 0 <= j < 4 && 0 + j * PACKET_SIZE < q.len() implies
                    #[trigger] q[0 + j * PACKET_SIZE] == HEADER_SYNC_WORD by {
                    assert(chunk_start(q, j) == HEADER_SYNC_WORD);
                }
            }
            assert(find_sync(q) == Some(0int));
            assert(q.skip(0) =~= q);
        }
        lemma_seek(q, true);
        assert(seek(q, synchronized) == (Sought {
            dropped: 0,
            malformed: 0,
            rest: q,
            synchronized: true,
        }));
        let next = q.skip(PACKET_SIZE as int);
        assert(aligned(next)) by {
            assert forall|k: int| 0 <= k && (k + 1) * PACKET_SIZE <= next.len() implies
                decode_packet(#[trigger] chunk(next, k)) is Some by {
                assert(chunk(next, k) =~= chunk(q, k + 1));
            }
            assert forall|k: int| 0 <= k && k * PACKET_SIZE < next.len() implies #[trigger]
                chunk_start(next, k) == HEADER_SYNC_WORD by {
                assert(chunk_start(next, k) == chunk_start(q, k + 1));
            }
        }
        lemma_aligned_input_loses_nothing(next, true);
        let whole = frames(q, synchronized);
        let tail = frames(next, true);
        assert(whole_packets(q) == whole_packets(next) + 1);
        assert forall|k: int| 0 <= k < whole_packets(q) implies #[trigger]
            whole.delivered[k] == chunk(q, k) by {
            if k > 0 {
                assert(whole.delivered[k] == tail.delivered[k - 1]);
                assert(chunk(next, k - 1) =~= chunk(q, k));
            }
        }
        assert(next.skip(whole_packets(next) * PACKET_SIZE) =~= q.skip(
            whole_packets(q) * PACKET_SIZE,
        ));
    }
}

/// An adaptation field that fills a packet without a payload is valid, and
/// the packet has an empty payload.
pub proof fn lemma_adaptation_field_fills_packet(data: Seq<u8>)
    requires
        data.len() == PACKET_SIZE,
        data[0] == HEADER_SYNC_WORD,
        has_adaptation_field(data),
        !has_payload(data),
        data[4] == after_length_byte(),
    ensures
        decode_packet(data) is Some,
        decode_packet(data).unwrap().payload.len() == 0,
{
}

/// An adaptation field that fills a packet which announces a payload makes
/// the packet malformed.
pub proof fn lemma_adaptation_field_leaves_no_payload(data: Seq<u8>)
    requires
        data.len() == PACKET_SIZE,
        has_adaptation_field(data),
        has_payload(data),
        data[4] == after_length_byte(),
    ensures
        decode_packet(data) is None,
{
}

/// A packet that announces neither an adaptation field nor a payload is
/// valid; it has an empty payload, and nothing is read from behind its
/// header.
pub proof fn lemma_bare_header(data: Seq<u8>)
    requires
        data.len() == PACKET_SIZE,
        data[0] == HEADER_SYNC_WORD,
        !has_adaptation_field(data),
        !has_payload(data),
    ensures
        decode_packet(data) is Some,
        decode_packet(data).unwrap().payload.len() == 0,
        decode_packet(data).unwrap().pcr is None,
        !decode_packet(data).unwrap().discontinuity,
        !decode_packet(data).unwrap().random_access,
{
}

/// The packets in `q` are those in what a search for the next packet
/// leaves, and what the search dropped counts as dropped.
pub proof fn lemma_frames_after_seek(q: Seq<u8>, synchronized: bool)
    ensures
        ({
            let f = seek(q, synchronized);
            let after = frames(f.rest, f.synchronized);
            &&& frames(q, synchronized).delivered == after.delivered
            &&& frames(q, synchronized).dropped == f.dropped + after.dropped
            &&& frames(q, synchronized).malformed == f.malformed + after.malformed
            &&& frames(q, synchronized).rest == after.rest
            &&& frames(q, synchronized).synchronized == after.synchronized
        }),
{
    lemma_seek(q, synchronized);
    let f = seek(q, synchronized);
    lemma_seek(f.rest, f.synchronized);
}

/// The payload of a packet is no longer than what follows the header.
pub proof fn lemma_payload_fits(data: Seq<u8>)
    requires
        data.len() == PACKET_SIZE,
        decode_packet(data) is Some,
    ensures
        decode_packet(data).unwrap().payload.len() <= PACKET_SIZE - 4,
{
}

/// A packet that decodes starts with the sync byte; its PID has 13 bits, its
/// continuity counter four, and its clock reference 42.
pub proof fn lemma_packet_fields(data: Seq<u8>)
    requires
        data.len() == PACKET_SIZE,
        decode_packet(data) is Some,
    ensures
        data[0] == HEADER_SYNC_WORD,
        decode_packet(data).unwrap().raw_data == data,
        decode_packet(data).unwrap().pid <= 0x1FFF,
        decode_packet(data).unwrap().continuity_counter <= 15,
        decode_packet(data).unwrap().pcr is Some ==> decode_packet(data).unwrap().pcr.unwrap()
            < 0x400_0000_0000,
{
    lemma2_to64();
    lemma2_to64_rest();
    lemma_field_bound(header(data), 20, 8);
    lemma_field_bound(header(data), 3, 0);
    lemma_field_bound(be48(data, 6), 47, 15);
    lemma_field_bound(be48(data, 6), 8, 0);
}

/// Every packet that is delivered decodes; none starts with another byte
/// than the sync byte.
pub proof fn lemma_delivered_packets_decode(q: Seq<u8>, synchronized: bool, k: int)
    requires
        0 <= k < frames(q, synchronized).delivered.len(),
    ensures
        frames(q, synchronized).delivered[k].len() == PACKET_SIZE,
        decode_packet(frames(q, synchronized).delivered[k]) is Some,
        frames(q, synchronized).delivered[k][0] == HEADER_SYNC_WORD,
    decreases q.len(),
{
    lemma_seek(q, synchronized);
    let f = seek(q, synchronized);
    if k > 0 {
        lemma_delivered_packets_decode(f.rest.skip(PACKET_SIZE as int), true, k - 1);
    }
}

} // verus!
