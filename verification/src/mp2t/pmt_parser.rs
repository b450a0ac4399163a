//! Decoding of program map sections.

use crate::context::{Context, ContextView};
use crate::internal::bitfield::{bit_u8, bits_u16, bits_u8, field, flag};
use crate::internal::cursor::{advance, be16, get_u16, get_u8, lemma_big_endian_2};
use crate::mp2t::desc::{parse_stream_desc, stream_desc, StreamDesc};
use crate::mp2t::{stream_views, Pmt, PmtView, StreamInfo, StreamInfoView, StreamType};
use crate::stats::Stats;
use vstd::prelude::*;
use vstd::slice::slice_subrange;

verus! {

/// The descriptors that are understood among those of a descriptor loop:
/// each is a tag, a length and as many bytes of body. `None` where a
/// descriptor is longer than what is left of the loop; a single trailing
/// byte is passed over.
pub open spec fn descriptors(es: Seq<u8>) -> Option<Seq<StreamDesc>>
    decreases es.len(),
{
    if es.len() < 2 {
        Some(Seq::empty())
    } else {
        let len = es[1] as int;
        if len > es.len() - 2 {
            None
        } else {
            match descriptors(es.skip(2 + len)) {
                None => None,
                Some(tail) => match stream_desc(es[0], es.subrange(2, 2 + len)) {
                    Some(d) => Some(seq![d] + tail),
                    None => Some(tail),
                },
            }
        }
    }
}

/// Length of the descriptor loop of the stream entry at the front of `rest`.
pub open spec fn es_info_len(rest: Seq<u8>) -> int {
    field(be16(rest, 3), 11, 0)
}

/// The stream entries in `rest`, the first of them numbered `index`. An entry
/// is a stream type, a PID, the length of its descriptor loop and that loop.
/// `None` where a loop is longer than what is left or does not decode; fewer
/// than five trailing bytes are passed over.
pub open spec fn stream_entries(rest: Seq<u8>, index: nat) -> Option<Seq<StreamInfoView>>
    decreases rest.len(),
{
    if rest.len() < 5 {
        Some(Seq::empty())
    } else {
        let n = es_info_len(rest);
        if !(0 <= n <= rest.len() - 5) {
            None
        } else {
            match descriptors(rest.subrange(5, 5 + n)) {
                None => None,
                Some(descs) => match stream_entries(rest.skip(5 + n), index + 1) {
                    None => None,
                    Some(tail) => Some(
                        seq![
                            StreamInfoView {
                                pid: field(be16(rest, 1), 12, 0) as u16,
                                stream_type: StreamType(rest[0]),
                                index: index as usize,
                                descs,
                            },
                        ] + tail,
                    ),
                },
            }
        }
    }
}

/// Length of the program-level descriptor loop of a section body.
pub open spec fn program_info_len(psi: Seq<u8>) -> int {
    field(be16(psi, 7), 11, 0)
}

/// The program map that a section body decodes to. `None` where the body is
/// shorter than its fixed part, where the section numbers are not both zero,
/// and where a length field reaches past the end.
pub open spec fn parse_pmt(psi: Seq<u8>) -> Option<PmtView> {
    if psi.len() < 9 {
        None
    } else if psi[3] != 0 || psi[4] != 0 {
        None
    } else if !(0 <= program_info_len(psi) <= psi.len() - 9) {
        None
    } else {
        match stream_entries(psi.skip(9 + program_info_len(psi)), 0) {
            None => None,
            Some(streams) => Some(
                PmtView {
                    program_number: be16(psi, 0) as u16,
                    version: field(psi[2] as int, 5, 1) as u8,
                    current_next: flag(psi[2] as int, 0),
                    pcr_pid: field(be16(psi, 5), 12, 0) as u16,
                    streams,
                },
            ),
        }
    }
}

/// `tail` behind `acc`, where there is a tail.
spec fn behind<T>(acc: Seq<T>, tail: Option<Seq<T>>) -> Option<Seq<T>> {
    match tail {
        None => None,
        Some(t) => Some(acc + t),
    }
}

/// Decodes a descriptor loop.
pub fn parse_descriptors(es_info: &[u8]) -> (r: Option<Vec<StreamDesc>>)
    ensures
        match r {
            Some(descs) => descriptors(es_info@) == Some(descs@),
            None => descriptors(es_info@) is None,
        },
{
    let mut rest = es_info;
    let mut descs: Vec<StreamDesc> = Vec::new();
    while rest.len() >= 2
        invariant
            descriptors(es_info@) == behind(descs@, descriptors(rest@)),
        decreases rest@.len(),
    {
        let (desc_tag, after_tag) = get_u8(rest);
        let (len_byte, body) = get_u8(after_tag);
        let desc_len = len_byte as usize;
        assert(body@ =~= rest@.skip(2));
        if desc_len > body.len() {
            return None;
        }
        let desc_buf = slice_subrange(body, 0, desc_len);
        assert(desc_buf@ =~= rest@.subrange(2, 2 + desc_len));
        let ghost before = descs@;
        let ghost tail = descriptors(rest@.skip(2 + desc_len));
        match parse_stream_desc(desc_tag, desc_buf) {
            Some(d) => {
                descs.push(d);
                proof {
                    if let Some(t) = tail {
                        assert(before + (seq![d] + t) =~= before.push(d) + t);
                    }
                }
            },
            None => {},
        }
        let next = advance(body, desc_len);
        assert(next@ =~= rest@.skip(2 + desc_len));
        rest = next;
    }
    proof {
        assert(descs@ + Seq::<StreamDesc>::empty() =~= descs@);
    }
    Some(descs)
}

/// Parser of program map sections.
pub struct PmtParser {}

impl PmtParser {
    /// A parser; it keeps nothing between two sections.
    pub fn new() -> PmtParser {
        PmtParser {  }
    }

    /// Decodes a section body and counts it as invalid where it does not
    /// decode.
    pub fn parse_psi(&mut self, ctx: &mut Context, psi: &[u8]) -> (r: Option<Pmt>)
        requires
            old(ctx).stats.invalid_pmt < u64::MAX,
        ensures
            match r {
                Some(pmt) => parse_pmt(psi@) == Some(pmt@) && final(ctx)@ == old(ctx)@,
                None => parse_pmt(psi@) is None && final(ctx)@ == (ContextView {
                    stats: Stats {
                        invalid_pmt: (old(ctx).stats.invalid_pmt + 1) as u64,
                        ..old(ctx).stats
                    },
                    ..old(ctx)@
                }),
            },
    {
        let r = self.parse(psi);
        if r.is_none() {
            ctx.stats.invalid_pmt += 1;
        }
        r
    }

    /// Decodes a section body.
    #[verifier::loop_isolation(false)]
    pub fn parse(&self, psi: &[u8]) -> (r: Option<Pmt>)
        ensures
            match r {
                Some(pmt) => parse_pmt(psi@) == Some(pmt@),
                None => parse_pmt(psi@) is None,
            },
    {
        if psi.len() < 9 {
            return None;
        }
        let (program_number, buf) = get_u16(psi);
        let (b, buf) = get_u8(buf);
        let version = bits_u8(b, 5, 1);
        let current_next = bit_u8(b, 0);
        let (section, buf) = get_u8(buf);
        let (last_section, buf) = get_u8(buf);
        assert(buf@ =~= psi@.skip(5));
        let (word, buf) = get_u16(buf);
        let pcr_pid = bits_u16(word, 12, 0);
        assert(buf@ =~= psi@.skip(7));
        if section != 0 || last_section != 0 {
            return None;
        }
        let (word, buf) = get_u16(buf);
        let info_len = bits_u16(word, 11, 0) as usize;
        proof {
            lemma_big_endian_2(psi@);
            lemma_big_endian_2(psi@.skip(5));
            lemma_big_endian_2(psi@.skip(7));
            assert(buf@ =~= psi@.skip(9));
        }
        if info_len > buf.len() {
            return None;
        }
        let entries = advance(buf, info_len);
        assert(entries@ =~= psi@.skip(9 + program_info_len(psi@)));
        let mut rest = entries;
        let mut streams: Vec<StreamInfo> = Vec::new();
        let mut index: usize = 0;
        while rest.len() >= 5
            invariant
                index + rest@.len() <= entries@.len(),
                stream_entries(entries@, 0) == behind(
                    stream_views(streams@),
                    stream_entries(rest@, index as nat),
                ),
            decreases rest@.len(),
        {
            let (raw_stream_type, after_type) = get_u8(rest);
            let stream_type = StreamType(raw_stream_type);
            let (word, after_pid) = get_u16(after_type);
            let pid = bits_u16(word, 12, 0);
            assert(after_pid@ =~= rest@.skip(3));
            let (word, loop_start) = get_u16(after_pid);
            let es_len = bits_u16(word, 11, 0) as usize;
            proof {
                lemma_big_endian_2(rest@.skip(1));
                lemma_big_endian_2(rest@.skip(3));
                assert(loop_start@ =~= rest@.skip(5));
            }
            if es_len > loop_start.len() {
                return None;
            }
            let es_info = slice_subrange(loop_start, 0, es_len);
            assert(es_info@ =~= rest@.subrange(5, 5 + es_len));
            let descs = match parse_descriptors(es_info) {
                Some(descs) => descs,
                None => {
                    return None;
                },
            };
            let ghost before = stream_views(streams@);
            let info = StreamInfo { pid, stream_type, index, descs };
            streams.push(info);
            let next = advance(loop_start, es_len);
            proof {
                assert(next@ =~= rest@.skip(5 + es_len));
                let added = streams@[streams@.len() - 1]@;
                assert(stream_views(streams@) =~= before.push(added));
                match stream_entries(next@, (index + 1) as nat) {
                    Some(tail) => {
                        assert(before + (seq![added] + tail) =~= before.push(added) + tail);
                    },
                    None => {},
                }
            }
            rest = next;
            index += 1;
        }
        let pmt = Pmt { program_number, version, current_next, pcr_pid, streams };
        proof {
            assert(stream_views(pmt.streams@) + Seq::<StreamInfoView>::empty() =~= stream_views(
                pmt.streams@,
            ));
        }
        Some(pmt)
    }
}

} // verus!
