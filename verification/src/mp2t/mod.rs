//! MPEG-2 transport stream layers and the tables they carry.

pub mod demuxer;
pub mod desc;
pub mod pat_parser;
pub mod pid_control;
pub mod pmt_parser;
pub mod psi_parser;
pub mod ts_parser;

use crate::internal::text::{hex, push_hex, push_str};
use crate::mp2t::desc::StreamDesc;
use vstd::prelude::*;

verus! {

/// The kind of an elementary stream, as a program map announces it: one of
/// the codes below, or a code without a name.
#[derive(Clone, Copy, Debug, PartialEq, Eq, Structural)]
pub struct StreamType(pub u8);

pub const MPEG1_VIDEO: u8 = 0x01;

pub const MPEG2_VIDEO: u8 = 0x02;

pub const MPEG1_AUDIO: u8 = 0x03;

pub const MPEG2_AUDIO: u8 = 0x04;

pub const PES_PRIVATE_DATA: u8 = 0x06;

pub const ADTS_AAC: u8 = 0x0F;

pub const METADATA: u8 = 0x15;

pub const AVC: u8 = 0x1B;

pub const HEVC: u8 = 0x24;

pub const TEMI: u8 = 0x27;

pub const AC3: u8 = 0x81;

pub const SCTE35: u8 = 0x86;

pub const EAC3: u8 = 0x87;

pub const ENCRYPTED_AC3: u8 = 0xC1;

pub const ENCRYPTED_EAC3: u8 = 0xC2;

pub const ENCRYPTED_ADTS_AAC: u8 = 0xCF;

pub const ENCRYPTED_AVC: u8 = 0xDB;

impl StreamType {
    /// The name of the stream type, `"undefined"` for a code without one.
    pub open spec fn spec_name(self) -> Seq<char> {
        if self.0 == MPEG1_VIDEO {
            "MPEG1_VIDEO"@
        } else if self.0 == MPEG2_VIDEO {
            "MPEG2_VIDEO"@
        } else if self.0 == MPEG1_AUDIO {
            "MPEG1_AUDIO"@
        } else if self.0 == MPEG2_AUDIO {
            "MPEG2_AUDIO"@
        } else if self.0 == PES_PRIVATE_DATA {
            "PES_PRIVATE_DATA"@
        } else if self.0 == ADTS_AAC {
            "ADTS_AAC"@
        } else if self.0 == METADATA {
            "METADATA"@
        } else if self.0 == AVC {
            "AVC"@
        } else if self.0 == HEVC {
            "HEVC"@
        } else if self.0 == TEMI {
            "TEMI"@
        } else if self.0 == AC3 {
            "AC3"@
        } else if self.0 == SCTE35 {
            "SCTE35"@
        } else if self.0 == EAC3 {
            "EAC3"@
        } else if self.0 == ENCRYPTED_AC3 {
            "ENCRYPTED_AC3"@
        } else if self.0 == ENCRYPTED_EAC3 {
            "ENCRYPTED_EAC3"@
        } else if self.0 == ENCRYPTED_ADTS_AAC {
            "ENCRYPTED_ADTS_AAC"@
        } else if self.0 == ENCRYPTED_AVC {
            "ENCRYPTED_AVC"@
        } else {
            "undefined"@
        }
    }

    /// The label of the stream type: its name, and its code in hexadecimal
    /// digits in brackets.
    pub open spec fn spec_label(self) -> Seq<char> {
        self.spec_name() + " (0x"@ + hex(self.0) + ")"@
    }

    /// The label of the stream type: its name, and its code in hexadecimal
    /// digits in brackets.
    pub fn label(&self) -> (s: String)
        ensures
            s@ == self.spec_label(),
    {
        let mut s = String::new();
        push_str(&mut s, self.name());
        push_str(&mut s, " (0x");
        push_hex(&mut s, self.0);
        push_str(&mut s, ")");
        assert(s@ =~= self.spec_label());
        s
    }

    /// The name of the stream type, `"undefined"` for a code without one.
    pub fn name(&self) -> (s: &'static str)
        ensures
            s@ == self.spec_name(),
    {
        let code: u8 = self.0;
        if code == MPEG1_VIDEO {
            "MPEG1_VIDEO"
        } else if code == MPEG2_VIDEO {
            "MPEG2_VIDEO"
        } else if code == MPEG1_AUDIO {
            "MPEG1_AUDIO"
        } else if code == MPEG2_AUDIO {
            "MPEG2_AUDIO"
        } else if code == PES_PRIVATE_DATA {
            "PES_PRIVATE_DATA"
        } else if code == ADTS_AAC {
            "ADTS_AAC"
        } else if code == METADATA {
            "METADATA"
        } else if code == AVC {
            "AVC"
        } else if code == HEVC {
            "HEVC"
        } else if code == TEMI {
            "TEMI"
        } else if code == AC3 {
            "AC3"
        } else if code == SCTE35 {
            "SCTE35"
        } else if code == EAC3 {
            "EAC3"
        } else if code == ENCRYPTED_AC3 {
            "ENCRYPTED_AC3"
        } else if code == ENCRYPTED_EAC3 {
            "ENCRYPTED_EAC3"
        } else if code == ENCRYPTED_ADTS_AAC {
            "ENCRYPTED_ADTS_AAC"
        } else if code == ENCRYPTED_AVC {
            "ENCRYPTED_AVC"
        } else {
            "undefined"
        }
    }
}

/// One entry of a program association table: a program and the PID that
/// carries its map.
#[derive(Default, Debug, PartialEq, Eq, Clone, Copy, Structural)]
pub struct ProgramInfo {
    pub number: u16,
    pub pid: u16,
}

/// A program association table.
#[derive(Default, Debug, PartialEq, Eq)]
pub struct Pat {
    pub transport_stream_id: u16,
    pub version: u8,
    pub current_next: bool,
    pub section: u8,
    pub last_section: u8,
    pub network_pid: Option<u16>,
    pub programs: Vec<ProgramInfo>,
}

/// A program association table as a mathematical value.
pub struct PatView {
    pub transport_stream_id: u16,
    pub version: u8,
    pub current_next: bool,
    pub section: u8,
    pub last_section: u8,
    pub network_pid: Option<u16>,
    pub programs: Seq<ProgramInfo>,
}

impl View for Pat {
    type V = PatView;

    open spec fn view(&self) -> PatView {
        PatView {
            transport_stream_id: self.transport_stream_id,
            version: self.version,
            current_next: self.current_next,
            section: self.section,
            last_section: self.last_section,
            network_pid: self.network_pid,
            programs: self.programs@,
        }
    }
}

impl Pat {
    /// Whether two tables hold the same fields and the same programs in the
    /// same order.
    pub fn same(&self, other: &Pat) -> (r: bool)
        ensures
            r == (self@ == other@),
    {
        if self.transport_stream_id != other.transport_stream_id || self.version != other.version
            || self.current_next != other.current_next || self.section != other.section
            || self.last_section != other.last_section {
            return false;
        }
        let same_network = match (self.network_pid, other.network_pid) {
            (Some(a), Some(b)) => a == b,
            (None, None) => true,
            _ => false,
        };
        if !same_network || self.programs.len() != other.programs.len() {
            return false;
        }
        let mut i: usize = 0;
        while i < self.programs.len()
            invariant
                i <= self.programs.len(),
                self.programs.len() == other.programs.len(),
                forall|k: int| 0 <= k < i ==> self.programs@[k] == other.programs@[k],
            decreases self.programs.len() - i,
        {
            if self.programs[i].number != other.programs[i].number || self.programs[i].pid
                != other.programs[i].pid {
                return false;
            }
            i += 1;
        }
        assert(self.programs@ =~= other.programs@);
        true
    }
}

impl Clone for Pat {
    fn clone(&self) -> (r: Pat)
        ensures
            r@ == self@,
    {
        let mut programs: Vec<ProgramInfo> = Vec::new();
        let mut i: usize = 0;
        while i < self.programs.len()
            invariant
                i <= self.programs.len(),
                programs@ == self.programs@.take(i as int),
            decreases self.programs.len() - i,
        {
            programs.push(self.programs[i]);
            assert(self.programs@.take(i + 1) =~= self.programs@.take(i as int).push(
                self.programs@[i as int],
            ));
            i += 1;
        }
        assert(self.programs@.take(i as int) =~= self.programs@);
        Pat {
            transport_stream_id: self.transport_stream_id,
            version: self.version,
            current_next: self.current_next,
            section: self.section,
            last_section: self.last_section,
            network_pid: self.network_pid,
            programs,
        }
    }
}

/// One elementary stream of a program.
#[derive(Debug, PartialEq, Eq)]
pub struct StreamInfo {
    pub pid: u16,
    pub stream_type: StreamType,
    /// Position of the stream within its program map, counted from zero.
    pub index: usize,
    pub descs: Vec<StreamDesc>,
}

/// An elementary stream as a mathematical value.
pub struct StreamInfoView {
    pub pid: u16,
    pub stream_type: StreamType,
    pub index: usize,
    pub descs: Seq<StreamDesc>,
}

impl View for StreamInfo {
    type V = StreamInfoView;

    open spec fn view(&self) -> StreamInfoView {
        StreamInfoView {
            pid: self.pid,
            stream_type: self.stream_type,
            index: self.index,
            descs: self.descs@,
        }
    }
}

impl StreamInfo {
    /// Whether two streams hold the same fields and the same descriptors in
    /// the same order.
    pub fn same(&self, other: &StreamInfo) -> (r: bool)
        ensures
            r == (self@ == other@),
    {
        if self.pid != other.pid || self.stream_type.0 != other.stream_type.0 || self.index
            != other.index || self.descs.len() != other.descs.len() {
            return false;
        }
        let mut i: usize = 0;
        while i < self.descs.len()
            invariant
                i <= self.descs.len(),
                self.descs.len() == other.descs.len(),
                forall|k: int| 0 <= k < i ==> self.descs@[k] == other.descs@[k],
            decreases self.descs.len() - i,
        {
            if self.descs[i] != other.descs[i] {
                return false;
            }
            i += 1;
        }
        assert(self.descs@ =~= other.descs@);
        true
    }
}

impl Clone for StreamInfo {
    fn clone(&self) -> (r: StreamInfo)
        ensures
            r@ == self@,
    {
        let mut descs: Vec<StreamDesc> = Vec::new();
        let mut i: usize = 0;
        while i < self.descs.len()
            invariant
                i <= self.descs.len(),
                descs@ == self.descs@.take(i as int),
            decreases self.descs.len() - i,
        {
            descs.push(self.descs[i]);
            assert(self.descs@.take(i + 1) =~= self.descs@.take(i as int).push(
                self.descs@[i as int],
            ));
            i += 1;
        }
        assert(self.descs@.take(i as int) =~= self.descs@);
        StreamInfo { pid: self.pid, stream_type: self.stream_type, index: self.index, descs }
    }
}

/// The views of a list of streams, in order.
pub open spec fn stream_views(streams: Seq<StreamInfo>) -> Seq<StreamInfoView> {
    Seq::new(streams.len(), |i: int| streams[i]@)
}

/// A program map table.
#[derive(Default, Debug, PartialEq, Eq)]
pub struct Pmt {
    pub program_number: u16,
    pub version: u8,
    pub current_next: bool,
    pub pcr_pid: u16,
    pub streams: Vec<StreamInfo>,
}

/// A program map table as a mathematical value.
pub struct PmtView {
    pub program_number: u16,
    pub version: u8,
    pub current_next: bool,
    pub pcr_pid: u16,
    pub streams: Seq<StreamInfoView>,
}

impl View for Pmt {
    type V = PmtView;

    open spec fn view(&self) -> PmtView {
        PmtView {
            program_number: self.program_number,
            version: self.version,
            current_next: self.current_next,
            pcr_pid: self.pcr_pid,
            streams: stream_views(self.streams@),
        }
    }
}

impl Pmt {
    /// Whether two tables hold the same fields and the same streams in the
    /// same order.
    pub fn same(&self, other: &Pmt) -> (r: bool)
        ensures
            r == (self@ == other@),
    {
        if self.program_number != other.program_number || self.version != other.version
            || self.current_next != other.current_next || self.pcr_pid != other.pcr_pid {
            return false;
        }
        if self.streams.len() != other.streams.len() {
            assert(self@.streams.len() != other@.streams.len());
            return false;
        }
        let mut i: usize = 0;
        while i < self.streams.len()
            invariant
                i <= self.streams.len(),
                self.streams.len() == other.streams.len(),
                forall|k: int| 0 <= k < i ==> self.streams@[k]@ == other.streams@[k]@,
            decreases self.streams.len() - i,
        {
            if !self.streams[i].same(&other.streams[i]) {
                assert(self@.streams[i as int] != other@.streams[i as int]);
                return false;
            }
            i += 1;
        }
        assert(self@.streams =~= other@.streams);
        true
    }
}

impl Clone for Pmt {
    fn clone(&self) -> (r: Pmt)
        ensures
            r@ == self@,
    {
        let mut streams: Vec<StreamInfo> = Vec::new();
        let mut i: usize = 0;
        while i < self.streams.len()
            invariant
                i <= self.streams.len(),
                streams@.len() == i,
                forall|k: int| 0 <= k < i ==> streams@[k]@ == self.streams@[k]@,
            decreases self.streams.len() - i,
        {
            streams.push(self.streams[i].clone());
            i += 1;
        }
        let r = Pmt {
            program_number: self.program_number,
            version: self.version,
            current_next: self.current_next,
            pcr_pid: self.pcr_pid,
            streams,
        };
        assert(r@.streams =~= self@.streams);
        r
    }
}

} // verus!
