//! The demultiplexer: routing of packets by PID, and the programs it tracks.

pub use crate::context::Context;
use crate::context::ContextView;
use crate::error::Error;
use crate::mp2t::pat_parser::{parse_pat, PatParser};
use crate::mp2t::pid_control::{handed_on, remembered, verdict, PidControl};
use crate::mp2t::pmt_parser::{parse_pmt, PmtParser};
use crate::mp2t::psi_parser::{outcome, psi_step, PsiOutcome, PsiParser, PsiState, MAX_PSI_LEN};
use crate::mp2t::ts_parser::{
    aligned, decode_packet, dropping, frames, lemma_aligned_input_loses_nothing,
    lemma_frames_account_for_every_byte, lemma_frames_after_seek, lemma_payload_fits,
    lemma_seek, seek, FramerState, PacketView, TsPacket, TsParser, PACKET_SIZE,
};
use crate::mp2t::{Pat, PatView, Pmt, PmtView, ProgramInfo, StreamInfoView};
use crate::stats::Stats;
use std::collections::HashMap;
use vstd::prelude::*;
use vstd::std_specs::hash::spec_keys_iter;
use vstd::std_specs::iter::IteratorSpec;

verus! {

broadcast use vstd::std_specs::hash::group_hash_axioms;

/// What the demultiplexer reports to its caller.
#[derive(Debug)]
#[allow(inconsistent_fields)]
pub enum Event {
    /// The program association table changed; `old` is the one it replaces.
    Pat { new: Pat, old: Option<Pat> },
    /// The map of a program changed; `old` is the one it replaces.
    Pmt { new: Pmt, old: Option<Pmt> },
    /// Reserved for elementary stream packets.
    Pes,
}

/// An event as a mathematical value.
#[allow(inconsistent_fields)]
pub enum EventView {
    Pat { new: PatView, old: Option<PatView> },
    Pmt { new: PmtView, old: Option<PmtView> },
    Pes,
}

/// The view of a table that may be absent.
pub open spec fn pat_option_view(p: Option<Pat>) -> Option<PatView> {
    match p {
        Some(p) => Some(p@),
        None => None,
    }
}

/// The view of a table that may be absent.
pub open spec fn pmt_option_view(p: Option<Pmt>) -> Option<PmtView> {
    match p {
        Some(p) => Some(p@),
        None => None,
    }
}

impl View for Event {
    type V = EventView;

    open spec fn view(&self) -> EventView {
        match *self {
            Event::Pat { new, old } => EventView::Pat { new: new@, old: pat_option_view(old) },
            Event::Pmt { new, old } => EventView::Pmt { new: new@, old: pmt_option_view(old) },
            Event::Pes => EventView::Pes,
        }
    }
}

/// Placeholder for a packetized elementary stream packet.
pub struct PesPacket {}

/// The PID of the program association table.
pub const PAT_PID: u16 = 0;

/// The PID of null packets, which carry nothing.
pub const NULL_PID: u16 = 0x1FFF;

/// The table id of program association sections.
pub const PAT_TABLE_ID: u8 = 0;

/// The table id of program map sections.
pub const PMT_TABLE_ID: u8 = 2;

/// A program that the association table lists.
#[derive(Default, Debug)]
pub struct Program {
    pub program_info: ProgramInfo,
    /// The map of the program, once one was seen.
    pub pmt: Option<Pmt>,
    /// Whether the map of the program is listened for.
    pub enabled: bool,
}

/// A program as a mathematical value.
pub struct ProgramView {
    pub program_info: ProgramInfo,
    pub pmt: Option<PmtView>,
    pub enabled: bool,
}

impl View for Program {
    type V = ProgramView;

    open spec fn view(&self) -> ProgramView {
        ProgramView {
            program_info: self.program_info,
            pmt: pmt_option_view(self.pmt),
            enabled: self.enabled,
        }
    }
}

impl Clone for Program {
    fn clone(&self) -> (r: Program)
        ensures
            r@ == self@,
    {
        let pmt = match &self.pmt {
            Some(pmt) => Some(pmt.clone()),
            None => None,
        };
        Program { program_info: self.program_info, pmt, enabled: self.enabled }
    }
}

/// A program as the association table announces it: without a map, and not
/// listened for.
pub open spec fn fresh_program(info: ProgramInfo) -> ProgramView {
    ProgramView { program_info: info, pmt: None, enabled: false }
}

/// What listens on a PID.
#[allow(inconsistent_fields)]
pub enum PidHandler {
    /// The program association table.
    Pat { control: PidControl, psi: PsiParser, parser: PatParser },
    /// The map of a program.
    Pmt { control: PidControl, psi: PsiParser, parser: PmtParser },
    /// An elementary stream; its packets are accepted and not looked into.
    Pes,
}

/// A handler as a mathematical value.
pub enum HandlerView {
    Pat {
        /// The continuity counter last seen.
        last: Option<u8>,
        /// The section in progress.
        psi: PsiState,
        /// The table last seen.
        seen: Option<PatView>,
    },
    Pmt {
        /// The continuity counter last seen.
        last: Option<u8>,
        /// The section in progress.
        psi: PsiState,
    },
    Pes,
}

impl View for PidHandler {
    type V = HandlerView;

    open spec fn view(&self) -> HandlerView {
        match *self {
            PidHandler::Pat { control, psi, parser } => HandlerView::Pat {
                last: control@,
                psi: psi@,
                seen: parser@,
            },
            PidHandler::Pmt { control, psi, parser } => HandlerView::Pmt {
                last: control@,
                psi: psi@,
            },
            PidHandler::Pes => HandlerView::Pes,
        }
    }
}

impl PidHandler {
    /// What holds of every handler between two packets.
    pub open spec fn wf(&self) -> bool {
        match *self {
            PidHandler::Pat { control, psi, parser } => psi.wf(),
            PidHandler::Pmt { control, psi, parser } => psi.wf(),
            PidHandler::Pes => true,
        }
    }
}

/// A handler that waits for the map of a program and has seen no packet.
pub open spec fn fresh_pmt_handler() -> HandlerView {
    HandlerView::Pmt {
        last: None,
        psi: PsiState { table_id: PMT_TABLE_ID, data: Seq::empty(), started: false },
    }
}

/// A handler that waits for the association table and has seen no packet.
pub open spec fn fresh_pat_handler() -> HandlerView {
    HandlerView::Pat {
        last: None,
        psi: PsiState { table_id: PAT_TABLE_ID, data: Seq::empty(), started: false },
        seen: None,
    }
}

/// The router: who listens on which PID, and the programs that are tracked.
pub struct Demult {
    pids: HashMap<u16, PidHandler>,
    programs: HashMap<u16, Program>,
}

/// A router as a mathematical value.
pub struct DemultView {
    /// The handler of each PID that is listened on.
    pub pids: Map<u16, HandlerView>,
    /// The programs that are tracked, by their numbers.
    pub programs: Map<u16, ProgramView>,
}

impl View for Demult {
    type V = DemultView;

    closed spec fn view(&self) -> DemultView {
        DemultView {
            pids: self.pids@.map_values(|h: PidHandler| h@),
            programs: self.programs@.map_values(|p: Program| p@),
        }
    }
}

impl DemultView {
    /// What holds of every router: the association table is listened for on
    /// its PID, and each program is tracked under its own number.
    pub open spec fn wf(self) -> bool {
        &&& self.pids.contains_key(PAT_PID)
        &&& self.pids[PAT_PID] is Pat
        &&& forall|n: u16| #[trigger]
            self.programs.contains_key(n) ==> self.programs[n].program_info.number == n
    }
}

/// Whether one of `streams` is carried on `pid`.
pub open spec fn carries(streams: Seq<StreamInfoView>, pid: u16) -> bool {
    exists|i: int| 0 <= i < streams.len() && (#[trigger] streams[i]).pid == pid
}

/// The handlers once every PID of `streams` is listened on: a PID that had
/// no handler has one for an elementary stream.
pub open spec fn with_streams(
    pids: Map<u16, HandlerView>,
    streams: Seq<StreamInfoView>,
) -> Map<u16, HandlerView> {
    Map::new(
        |p: u16| pids.contains_key(p) || carries(streams, p),
        |p: u16|
            if pids.contains_key(p) {
                pids[p]
            } else {
                HandlerView::Pes
            },
    )
}

/// One more stream carries what the streams before it carry, and its own
/// PID.
proof fn lemma_carries_one_more(streams: Seq<StreamInfoView>, i: int, p: u16)
    requires
        0 <= i < streams.len(),
    ensures
        carries(streams.take(i + 1), p) <==> carries(streams.take(i), p) || streams[i].pid == p,
{
    let shorter = streams.take(i);
    let longer = streams.take(i + 1);
    if carries(longer, p) {
        let j = choose|j: int| 0 <= j < longer.len() && (#[trigger] longer[j]).pid == p;
        if j < i {
            assert(shorter[j].pid == p);
        }
    }
    if carries(shorter, p) {
        let j = choose|j: int| 0 <= j < shorter.len() && (#[trigger] shorter[j]).pid == p;
        assert(longer[j].pid == p);
    }
    if streams[i].pid == p {
        assert(longer[i].pid == p);
    }
}

/// The router after the map of a program arrived: the program keeps it, and
/// its streams are listened for. A map of a program that is not tracked
/// changes nothing.
pub open spec fn mapped(d: DemultView, pmt: PmtView) -> DemultView {
    if !d.programs.contains_key(pmt.program_number) {
        d
    } else {
        DemultView {
            pids: with_streams(d.pids, pmt.streams),
            programs: d.programs.insert(
                pmt.program_number,
                ProgramView { pmt: Some(pmt), ..d.programs[pmt.program_number] },
            ),
        }
    }
}

/// The events that the map of a program gives rise to: one where it differs
/// from the map that the program had.
pub open spec fn map_events(d: DemultView, pmt: PmtView) -> Seq<EventView> {
    if d.programs.contains_key(pmt.program_number) && d.programs[pmt.program_number].pmt
        != Some(pmt) {
        seq![EventView::Pmt { new: pmt, old: d.programs[pmt.program_number].pmt }]
    } else {
        Seq::empty()
    }
}

/// The PID that a list of programs gives the program `n`: that of the last
/// entry with the number, if there is one.
pub open spec fn pid_of(listed: Seq<ProgramInfo>, n: u16) -> Option<u16>
    decreases listed.len(),
{
    if listed.len() == 0 {
        None
    } else if listed.last().number == n {
        Some(listed.last().pid)
    } else {
        pid_of(listed.drop_last(), n)
    }
}

/// Whether a tracked program stays tracked under a new association table: it
/// is listed with the PID that it has.
pub open spec fn survives(p: ProgramView, listed: Seq<ProgramInfo>) -> bool {
    pid_of(listed, p.program_info.number) == Some(p.program_info.pid)
}

/// Whether what is carried on `pid` belongs to the program: its map, or one
/// of the streams of the map it has.
pub open spec fn belongs(p: ProgramView, pid: u16) -> bool {
    p.program_info.pid == pid || (p.pmt is Some && carries(p.pmt.unwrap().streams, pid))
}

/// Whether the handler on `pid` goes with a program. The handler of the
/// association table never does.
pub open spec fn goes_with(p: ProgramView, pid: u16) -> bool {
    pid != PAT_PID && belongs(p, pid)
}

/// Whether the handler on `pid` is torn down under a new association table:
/// it goes with a tracked program that does not survive.
pub open spec fn torn_down(
    programs: Map<u16, ProgramView>,
    listed: Seq<ProgramInfo>,
    pid: u16,
) -> bool {
    exists|n: u16|
        programs.contains_key(n) && !survives(#[trigger] programs[n], listed) && goes_with(
            programs[n],
            pid,
        )
}

/// The handlers without those that go with the program.
spec fn without_program(pids: Map<u16, HandlerView>, p: ProgramView) -> Map<
    u16,
    HandlerView,
> {
    Map::new(|pid: u16| pids.contains_key(pid) && !goes_with(p, pid), |pid: u16| pids[pid])
}

/// The router under a new association table. A tracked program stays as it
/// is where the table lists it with the PID that it has; every other tracked
/// program goes, and with it the handlers of its map and of its streams.
/// Every other listed program is tracked afresh.
pub open spec fn reconciled(d: DemultView, listed: Seq<ProgramInfo>) -> DemultView {
    DemultView {
        pids: Map::new(
            |pid: u16| d.pids.contains_key(pid) && !torn_down(d.programs, listed, pid),
            |pid: u16| d.pids[pid],
        ),
        programs: Map::new(
            |n: u16| pid_of(listed, n) is Some,
            |n: u16|
                if d.programs.contains_key(n) && survives(d.programs[n], listed) {
                    d.programs[n]
                } else {
                    fresh_program(ProgramInfo { number: n, pid: pid_of(listed, n).unwrap() })
                },
        ),
    }
}

/// The tracked programs that survive a new association table.
spec fn survivors(programs: Map<u16, ProgramView>, listed: Seq<ProgramInfo>) -> Map<
    u16,
    ProgramView,
> {
    Map::new(
        |n: u16| programs.contains_key(n) && survives(programs[n], listed),
        |n: u16| programs[n],
    )
}

/// Whether the handler on `pid` goes with one of the programs numbered in
/// `numbers` that does not survive.
spec fn torn_by(
    programs: Map<u16, ProgramView>,
    listed: Seq<ProgramInfo>,
    numbers: Seq<u16>,
    pid: u16,
) -> bool {
    exists|n: u16|
        numbers.contains(n) && programs.contains_key(n) && !survives(
            #[trigger] programs[n],
            listed,
        ) && goes_with(programs[n], pid)
}

/// The handlers that are left once the programs numbered in `numbers` were
/// looked at.
spec fn pids_after(d: DemultView, listed: Seq<ProgramInfo>, numbers: Seq<u16>) -> Map<
    u16,
    HandlerView,
> {
    Map::new(
        |pid: u16| d.pids.contains_key(pid) && !torn_by(d.programs, listed, numbers, pid),
        |pid: u16| d.pids[pid],
    )
}

/// The programs that are left once those numbered in `numbers` were looked
/// at.
spec fn programs_after(
    d: DemultView,
    listed: Seq<ProgramInfo>,
    numbers: Seq<u16>,
) -> Map<u16, ProgramView> {
    Map::new(
        |n: u16|
            d.programs.contains_key(n) && !(numbers.contains(n) && !survives(
                d.programs[n],
                listed,
            )),
        |n: u16| d.programs[n],
    )
}

/// One more number looked at adds the handlers of that program to those
/// torn down, where the program does not survive.
proof fn lemma_torn_by_one_more(
    programs: Map<u16, ProgramView>,
    listed: Seq<ProgramInfo>,
    numbers: Seq<u16>,
    i: int,
    pid: u16,
)
    requires
        0 <= i < numbers.len(),
        programs.contains_key(numbers[i]),
    ensures
        torn_by(programs, listed, numbers.take(i + 1), pid) <==> torn_by(
            programs,
            listed,
            numbers.take(i),
            pid,
        ) || (!survives(programs[numbers[i]], listed) && goes_with(programs[numbers[i]], pid)),
{
    let shorter = numbers.take(i);
    let longer = numbers.take(i + 1);
    assert(longer =~= shorter.push(numbers[i]));
    assert(longer[i] == numbers[i]);
    assert forall|n: u16| longer.contains(n) <==> shorter.contains(n) || n == numbers[i] by {
        if shorter.contains(n) {
            let j = choose|j: int| 0 <= j < shorter.len() && shorter[j] == n;
            assert(longer[j] == n);
        }
    }
    if torn_by(programs, listed, longer, pid) {
        let n = choose|n: u16|
            longer.contains(n) && programs.contains_key(n) && !survives(
                #[trigger] programs[n],
                listed,
            ) && goes_with(programs[n], pid);
        if n != numbers[i] {
            assert(shorter.contains(n));
        }
    }
    if torn_by(programs, listed, shorter, pid) {
        let n = choose|n: u16|
            shorter.contains(n) && programs.contains_key(n) && !survives(
                #[trigger] programs[n],
                listed,
            ) && goes_with(programs[n], pid);
        assert(longer.contains(n));
    }
    if !survives(programs[numbers[i]], listed) && goes_with(programs[numbers[i]], pid) {
        assert(longer.contains(numbers[i]));
    }
}

/// A program that the list names has a PID in it.
proof fn lemma_listed_has_pid(listed: Seq<ProgramInfo>, j: int)
    requires
        0 <= j < listed.len(),
    ensures
        pid_of(listed, listed[j].number) is Some,
    decreases listed.len(),
{
    if listed.last().number != listed[j].number {
        lemma_listed_has_pid(listed.drop_last(), j);
    }
}

/// The programs that are tracked once the first `i` entries of the list were
/// looked at.
spec fn tracked_after(
    programs: Map<u16, ProgramView>,
    listed: Seq<ProgramInfo>,
    i: int,
) -> Map<u16, ProgramView> {
    Map::new(
        |n: u16| programs.contains_key(n) || pid_of(listed.take(i), n) is Some,
        |n: u16|
            if programs.contains_key(n) {
                programs[n]
            } else {
                fresh_program(ProgramInfo { number: n, pid: pid_of(listed, n).unwrap() })
            },
    )
}

/// What the continuity check and the reassembler of one PID make of a
/// packet.
pub struct Chained {
    /// The continuity counter that is remembered.
    pub last: Option<u8>,
    /// The section in progress.
    pub psi: PsiState,
    /// What was counted.
    pub counted: Stats,
    /// The body of the section that the packet completed, if it completed
    /// one.
    pub section: Option<Seq<u8>>,
}

/// The reassembler without a section in progress.
pub open spec fn rearmed(psi: PsiState) -> PsiState {
    PsiState { data: Seq::empty(), started: false, ..psi }
}

/// A packet goes through the continuity check first. A duplicate ends
/// there; a jump of the counter discards the section in progress; the
/// reassembler then takes the packet in.
pub open spec fn chained(last: Option<u8>, psi: PsiState, pkt: PacketView) -> Chained {
    let v = verdict(last, pkt.continuity_counter, pkt.payload.len() > 0);
    let heard = remembered(last, pkt.continuity_counter, pkt.payload.len() > 0);
    let counted = crate::mp2t::pid_control::stats_after(Stats::zero(), v);
    let armed = if v is Discontinuity {
        rearmed(psi)
    } else {
        psi
    };
    let o = outcome(armed, pkt.payload_start, pkt.payload);
    if v is Duplicate {
        Chained { last: heard, psi, counted, section: None }
    } else {
        Chained {
            last: heard,
            psi: psi_step(armed, pkt.payload_start, pkt.payload),
            counted: crate::mp2t::psi_parser::stats_after(counted, o),
            section: match o {
                PsiOutcome::Section(body) => Some(body),
                _ => None,
            },
        }
    }
}

/// What the router makes of a packet.
pub struct Routed {
    /// The router after the packet.
    pub demult: DemultView,
    /// What was counted.
    pub counted: Stats,
    /// The events that the packet gave rise to, in order.
    pub events: Seq<EventView>,
}

/// One of a counter, none of the others.
pub open spec fn one_ignored() -> Stats {
    Stats { ignored_ts_packets: 1, ..Stats::zero() }
}

/// One invalid section more than `counted`.
pub open spec fn and_invalid_psi(counted: Stats) -> Stats {
    Stats { invalid_psi: (counted.invalid_psi + 1) as u64, ..counted }
}

/// One invalid program map more than `counted`.
pub open spec fn and_invalid_pmt(counted: Stats) -> Stats {
    Stats { invalid_pmt: (counted.invalid_pmt + 1) as u64, ..counted }
}

/// The router with another handler on `pid`.
pub open spec fn with_handler(d: DemultView, pid: u16, h: HandlerView) -> DemultView {
    DemultView { pids: d.pids.insert(pid, h), ..d }
}

/// What the router makes of a packet. A null packet and a packet on a PID
/// without a handler are counted as ignored. A packet of an elementary
/// stream is accepted. A packet of a table goes through the continuity check
/// and the reassembler of its PID; a section that it completes is decoded. A
/// new association table is reported and the tracked programs are
/// reconciled with it; the map of a tracked program is kept, and reported
/// where it is new.
pub open spec fn route(d: DemultView, pkt: PacketView) -> Routed {
    if pkt.pid == NULL_PID || !d.pids.contains_key(pkt.pid) {
        Routed { demult: d, counted: one_ignored(), events: Seq::empty() }
    } else {
        match d.pids[pkt.pid] {
            HandlerView::Pes => Routed { demult: d, counted: Stats::zero(), events: Seq::empty() },
            HandlerView::Pat { last, psi, seen } => {
                let c = chained(last, psi, pkt);
                let table = match c.section {
                    Some(body) => parse_pat(body),
                    None => None,
                };
                let heard = with_handler(
                    d,
                    pkt.pid,
                    HandlerView::Pat {
                        last: c.last,
                        psi: c.psi,
                        seen: if table is Some {
                            table
                        } else {
                            seen
                        },
                    },
                );
                if c.section is Some && table is None {
                    Routed {
                        demult: heard,
                        counted: and_invalid_psi(c.counted),
                        events: Seq::empty(),
                    }
                } else if table is Some && table != seen {
                    Routed {
                        demult: reconciled(heard, table.unwrap().programs),
                        counted: c.counted,
                        events: seq![EventView::Pat { new: table.unwrap(), old: seen }],
                    }
                } else {
                    Routed { demult: heard, counted: c.counted, events: Seq::empty() }
                }
            },
            HandlerView::Pmt { last, psi } => {
                let c = chained(last, psi, pkt);
                let table = match c.section {
                    Some(body) => parse_pmt(body),
                    None => None,
                };
                let heard = with_handler(
                    d,
                    pkt.pid,
                    HandlerView::Pmt { last: c.last, psi: c.psi },
                );
                if c.section is Some && table is None {
                    Routed {
                        demult: heard,
                        counted: and_invalid_pmt(c.counted),
                        events: Seq::empty(),
                    }
                } else if table is Some {
                    Routed {
                        demult: mapped(heard, table.unwrap()),
                        counted: c.counted,
                        events: map_events(heard, table.unwrap()),
                    }
                } else {
                    Routed { demult: heard, counted: c.counted, events: Seq::empty() }
                }
            },
        }
    }
}

/// Runs a packet through the continuity check and the reassembler of its
/// PID.
fn chain<'a>(
    control: &mut PidControl,
    psi: &mut PsiParser,
    ctx: &mut Context,
    pkt: &'a TsPacket<'a>,
) -> (section: Option<Vec<u8>>)
    requires
        old(psi).wf(),
        pkt@.payload.len() + MAX_PSI_LEN <= usize::MAX,
        old(ctx).stats.within(u64::MAX - 1),
    ensures
        final(psi).wf(),
        final(control)@ == chained(old(control)@, old(psi)@, pkt@).last,
        final(psi)@ == chained(old(control)@, old(psi)@, pkt@).psi,
        final(ctx)@ == (ContextView {
            stats: old(ctx).stats.plus(chained(old(control)@, old(psi)@, pkt@).counted),
            ..old(ctx)@
        }),
        match section {
            Some(body) => chained(old(control)@, old(psi)@, pkt@).section == Some(body@),
            None => chained(old(control)@, old(psi)@, pkt@).section is None,
        },
{
    let ghost v = verdict(old(control)@, pkt.continuity_counter, pkt@.payload.len() > 0);
    let ghost psi0 = old(psi)@;
    let ghost s0 = old(ctx).stats;
    let ghost s1 = crate::mp2t::pid_control::stats_after(s0, v);
    let ghost start = pkt@.payload_start;
    let ghost payload = pkt@.payload;
    let events = control.parse_pkt(ctx, pkt);
    let mut section: Option<Vec<u8>> = None;
    let mut i: usize = 0;
    while i < events.len()
        invariant
            i <= events.len(),
            events@ == handed_on(v, pkt),
            psi.wf(),
            pkt@.payload.len() + MAX_PSI_LEN <= usize::MAX,
            s0.within(u64::MAX - 1),
            s1 == crate::mp2t::pid_control::stats_after(s0, v),
            start == pkt@.payload_start,
            payload == pkt@.payload,
            ctx@.events == old(ctx)@.events,
            i == 0 ==> psi@ == psi0 && ctx.stats == s1 && section is None,
            i == 1 && v is Discontinuity ==> psi@ == rearmed(psi0) && ctx.stats == s1
                && section is None,
            i == 1 && v is Deliver ==> fed(psi0, s1, start, payload, psi@, ctx.stats, section),
            i == 2 ==> fed(rearmed(psi0), s1, start, payload, psi@, ctx.stats, section),
        decreases events.len() - i,
    {
        match events[i] {
            crate::mp2t::pid_control::Event::Reset => {
                psi.reset();
            },
            crate::mp2t::pid_control::Event::TsPacket(p) => {
                assert(p@ == pkt@);
                section = psi.on_pkt(ctx, p);
            },
        }
        i += 1;
    }
    section
}

/// Whether `psi`, `stats` and `section` are what the reassembler `armed`
/// and the counters `counted` come to by a packet.
spec fn fed(
    armed: PsiState,
    counted: Stats,
    payload_start: bool,
    payload: Seq<u8>,
    psi: PsiState,
    stats: Stats,
    section: Option<Vec<u8>>,
) -> bool {
    &&& psi == psi_step(armed, payload_start, payload)
    &&& stats == crate::mp2t::psi_parser::stats_after(
        counted,
        outcome(armed, payload_start, payload),
    )
    &&& match section {
        Some(body) => outcome(armed, payload_start, payload) == PsiOutcome::Section(body@),
        None => !(outcome(armed, payload_start, payload) is Section),
    }
}

/// The router once the map of a program is listened for. A program that is
/// not tracked and one that is listened for already change nothing. The
/// handler of the association table stays where a program claims its PID.
pub open spec fn enabled(d: DemultView, number: u16) -> DemultView {
    if !d.programs.contains_key(number) || d.programs[number].enabled {
        d
    } else {
        DemultView {
            pids: if d.programs[number].program_info.pid == PAT_PID {
                d.pids
            } else {
                d.pids.insert(d.programs[number].program_info.pid, fresh_pmt_handler())
            },
            programs: d.programs.insert(
                number,
                ProgramView { enabled: true, ..d.programs[number] },
            ),
        }
    }
}

/// To listen for the map of a program twice is to listen for it once.
pub proof fn lemma_enable_is_idempotent(d: DemultView, number: u16)
    ensures
        enabled(enabled(d, number), number) == enabled(d, number),
{
}

/// The PID that a list of programs gives the program `n`.
pub fn lookup_pid(listed: &Vec<ProgramInfo>, n: u16) -> (r: Option<u16>)
    ensures
        r == pid_of(listed@, n),
{
    let mut i: usize = listed.len();
    assert(listed@.take(i as int) =~= listed@);
    while i > 0
        invariant
            i <= listed.len(),
            pid_of(listed@, n) == pid_of(listed@.take(i as int), n),
        decreases i,
    {
        assert(listed@.take(i as int).drop_last() =~= listed@.take(i - 1));
        i -= 1;
        if listed[i].number == n {
            return Some(listed[i].pid);
        }
    }
    None
}

impl Demult {
    /// What holds of every router between two calls.
    pub closed spec fn wf(&self) -> bool {
        &&& self@.wf()
        &&& forall|k: u16| #[trigger] self.pids@.contains_key(k) ==> self.pids@[k].wf()
    }

    /// The invariant of the view follows from that of the router.
    pub proof fn lemma_wf(&self)
        requires
            self.wf(),
        ensures
            self@.wf(),
    {
    }

    /// A router that listens for the association table and tracks no
    /// program.
    pub fn new() -> (d: Demult)
        ensures
            d.wf(),
            d@.pids == Map::<u16, HandlerView>::empty().insert(PAT_PID, fresh_pat_handler()),
            d@.programs == Map::<u16, ProgramView>::empty(),
    {
        let mut d = Demult { pids: HashMap::new(), programs: HashMap::new() };
        d.pids.insert(
            PAT_PID,
            PidHandler::Pat {
                control: PidControl::new(),
                psi: PsiParser::new(PAT_TABLE_ID),
                parser: PatParser::new(),
            },
        );
        assert(d@.pids =~= Map::<u16, HandlerView>::empty().insert(PAT_PID, fresh_pat_handler()));
        assert(d@.programs =~= Map::<u16, ProgramView>::empty());
        d
    }

    /// Takes in the map of a program.
    pub fn on_pmt(&mut self, ctx: &mut Context, pmt: Pmt)
        requires
            old(self).wf(),
        ensures
            final(self).wf(),
            final(self)@ == mapped(old(self)@, pmt@),
            final(ctx)@ == (ContextView {
                events: old(ctx)@.events + map_events(old(self)@, pmt@),
                ..old(ctx)@
            }),
    {
        let number = pmt.program_number;
        let ghost start = self@;
        match self.programs.remove(&number) {
            None => {
                assert(self@.programs =~= start.programs);
                assert(ctx@.events + Seq::<EventView>::empty() =~= ctx@.events);
            },
            Some(prog) => {
                let mut prog = prog;
                let ghost had = prog@;
                assert(had == start.programs[number]);
                let changed = match &prog.pmt {
                    Some(current) => !pmt.same(current),
                    None => true,
                };
                let mut i: usize = 0;
                while i < pmt.streams.len()
                    invariant
                        i <= pmt.streams.len(),
                        forall|k: u16| #[trigger]
                            self.pids@.contains_key(k) ==> self.pids@[k].wf(),
                        self.programs@ == old(self).programs@.remove(number),
                        self@.pids == with_streams(start.pids, pmt@.streams.take(i as int)),
                    decreases pmt.streams.len() - i,
                {
                    let pid = pmt.streams[i].pid;
                    let ghost before = self@.pids;
                    if !self.pids.contains_key(&pid) {
                        assert(!before.contains_key(pid));
                        assert(!start.pids.contains_key(pid));
                        self.pids.insert(pid, PidHandler::Pes);
                        assert(self@.pids =~= before.insert(pid, HandlerView::Pes));
                    } else {
                        assert(before.contains_key(pid));
                    }
                    proof {
                        let longer = pmt@.streams.take(i + 1);
                        let target = with_streams(start.pids, longer);
                        assert forall|p: u16| self@.pids.contains_key(p) == target.contains_key(
                            p,
                        ) by {
                            lemma_carries_one_more(pmt@.streams, i as int, p);
                        }
                        assert forall|p: u16| self@.pids.contains_key(p) implies self@.pids[p]
                            == target[p] by {
                            lemma_carries_one_more(pmt@.streams, i as int, p);
                        }
                        assert(self@.pids =~= target);
                    }
                    i += 1;
                }
                assert(pmt@.streams.take(i as int) =~= pmt@.streams);
                if changed {
                    let old_pmt = prog.pmt.take();
                    ctx.emit(Event::Pmt { new: pmt.clone(), old: old_pmt });
                    prog.pmt = Some(pmt);
                    assert(ctx@.events =~= old(ctx)@.events + map_events(start, pmt@));
                } else {
                    assert(ctx@.events + Seq::<EventView>::empty() =~= ctx@.events);
                }
                self.programs.insert(number, prog);
                assert(self@.programs =~= mapped(start, pmt@).programs);
            },
        }
    }

    /// The numbers of the tracked programs, each once, in no particular
    /// order.
    fn program_numbers(&self) -> (r: Vec<u16>)
        ensures
            r@.no_duplicates(),
            forall|n: u16| r@.contains(n) <==> self@.programs.contains_key(n),
    {
        let mut out: Vec<u16> = Vec::new();
        for k in it: self.programs.keys()
            invariant
                it.seq() == spec_keys_iter(&self.programs).remaining(),
                out@ == it.seq().take(it.index() as int).unref(),
        {
            out.push(*k);
        }
        assert(out@ == spec_keys_iter(&self.programs).remaining().unref());
        assert(out@.to_set() == self.programs@.dom());
        assert forall|n: u16| out@.contains(n) <==> self@.programs.contains_key(n) by {
            assert(out@.to_set().contains(n) == out@.contains(n));
        }
        out
    }

    /// Removes the handlers that go with a program.
    fn tear_down(&mut self, prog: &Program)
        requires
            old(self).wf(),
        ensures
            final(self).wf(),
            final(self)@ == (DemultView {
                pids: without_program(old(self)@.pids, prog@),
                ..old(self)@
            }),
    {
        let ghost start = self@.pids;
        if prog.program_info.pid != PAT_PID {
            self.pids.remove(&prog.program_info.pid);
        }
        let ghost info = prog@.program_info;
        assert(self@.pids =~= Map::new(
            |pid: u16| start.contains_key(pid) && !(pid != PAT_PID && info.pid == pid),
            |pid: u16| start[pid],
        ));
        if let Some(pmt) = &prog.pmt {
            let mut i: usize = 0;
            while i < pmt.streams.len()
                invariant
                    i <= pmt.streams.len(),
                    prog.pmt == Some(*pmt),
                    info == prog@.program_info,
                    self.programs@ == old(self).programs@,
                    self.pids@.contains_key(PAT_PID),
                    self.pids@[PAT_PID] == old(self).pids@[PAT_PID],
                    forall|k: u16| #[trigger]
                        self.pids@.contains_key(k) ==> self.pids@[k].wf(),
                    self@.pids == Map::new(
                        |pid: u16|
                            start.contains_key(pid) && !(pid != PAT_PID && (info.pid == pid
                                || carries(pmt@.streams.take(i as int), pid))),
                        |pid: u16| start[pid],
                    ),
                decreases pmt.streams.len() - i,
            {
                let pid = pmt.streams[i].pid;
                let ghost before = self@.pids;
                if pid != PAT_PID {
                    self.pids.remove(&pid);
                    assert(self@.pids =~= before.remove(pid));
                }
                proof {
                    let target = Map::new(
                        |p: u16|
                            start.contains_key(p) && !(p != PAT_PID && (info.pid == p || carries(
                                pmt@.streams.take(i + 1),
                                p,
                            ))),
                        |p: u16| start[p],
                    );
                    assert forall|p: u16| self@.pids.contains_key(p) == target.contains_key(
                        p,
                    ) by {
                        lemma_carries_one_more(pmt@.streams, i as int, p);
                    }
                    assert(self@.pids =~= target);
                }
                i += 1;
            }
            assert(pmt@.streams.take(i as int) =~= pmt@.streams);
            assert(self@.pids =~= without_program(start, prog@));
        } else {
            assert(self@.pids =~= without_program(start, prog@)) by {
                assert forall|pid: u16| !carries(Seq::<StreamInfoView>::empty(), pid) by {}
            }
        }
    }

    /// Stops tracking the programs that do not survive the new association
    /// table, and removes the handlers that go with them.
    fn drop_dead(&mut self, pat: &Pat)
        requires
            old(self).wf(),
        ensures
            final(self).wf(),
            final(self)@.pids == reconciled(old(self)@, pat@.programs).pids,
            final(self)@.programs == survivors(old(self)@.programs, pat@.programs),
    {
        let ghost start = self@;
        let ghost listed = pat@.programs;
        let numbers = self.program_numbers();
        let mut i: usize = 0;
        assert(self@.pids =~= pids_after(start, listed, numbers@.take(0)));
        assert(self@.programs =~= programs_after(start, listed, numbers@.take(0)));
        while i < numbers.len()
            invariant
                i <= numbers.len(),
                self.wf(),
                start.wf(),
                listed == pat@.programs,
                numbers@.no_duplicates(),
                forall|n: u16| numbers@.contains(n) <==> start.programs.contains_key(n),
                self@.pids == pids_after(start, listed, numbers@.take(i as int)),
                self@.programs == programs_after(start, listed, numbers@.take(i as int)),
            decreases numbers.len() - i,
        {
            let number = numbers[i];
            let ghost done = numbers@.take(i as int);
            let ghost before = self@;
            proof {
                assert(numbers@.contains(number));
                assert(!done.contains(number)) by {
                    if done.contains(number) {
                        let j = choose|j: int| 0 <= j < done.len() && done[j] == number;
                        assert(numbers@[j] == numbers@[i as int]);
                    }
                }
                assert(before.programs.contains_key(number));
                assert(numbers@.take(i + 1) =~= done.push(number));
            }
            match self.programs.remove(&number) {
                Some(prog) => {
                    assert(prog@ == start.programs[number]);
                    let listed_pid = lookup_pid(&pat.programs, number);
                    let stays = match listed_pid {
                        Some(pid) => pid == prog.program_info.pid,
                        None => false,
                    };
                    assert(stays == survives(prog@, listed));
                    if stays {
                        self.programs.insert(number, prog);
                        assert(self@.programs =~= before.programs);
                    } else {
                        assert(self@.programs =~= before.programs.remove(number));
                        assert(self.wf());
                        self.tear_down(&prog);
                    }
                    proof {
                        let longer = numbers@.take(i + 1);
                        assert forall|n: u16| longer.contains(n) <==> done.contains(n) || n
                            == number by {
                            if done.contains(n) {
                                let j = choose|j: int| 0 <= j < done.len() && done[j] == n;
                                assert(longer[j] == n);
                            }
                            assert(longer[i as int] == number);
                        }
                        assert(self@.programs =~= programs_after(start, listed, longer));
                        assert forall|pid: u16|
                            self@.pids.contains_key(pid) == pids_after(
                                start,
                                listed,
                                longer,
                            ).contains_key(pid) by {
                            lemma_torn_by_one_more(
                                start.programs,
                                listed,
                                numbers@,
                                i as int,
                                pid,
                            );
                        }
                        assert(self@.pids =~= pids_after(start, listed, longer));
                    }
                },
                None => {
                    // Each number is that of a tracked program and comes once.
                    assert(false);
                },
            }
            i += 1;
        }
        proof {
            assert(numbers@.take(i as int) =~= numbers@);
            assert forall|pid: u16|
                torn_by(start.programs, listed, numbers@, pid) == torn_down(
                    start.programs,
                    listed,
                    pid,
                ) by {
                if torn_down(start.programs, listed, pid) {
                    let n = choose|n: u16|
                        start.programs.contains_key(n) && !survives(
                            #[trigger] start.programs[n],
                            listed,
                        ) && goes_with(start.programs[n], pid);
                    assert(numbers@.contains(n));
                }
            }
            assert(self@.pids =~= reconciled(start, listed).pids);
            assert(self@.programs =~= survivors(start.programs, listed));
        }
    }

    /// Starts tracking the programs of the association table that are not
    /// tracked yet.
    fn track_listed(&mut self, pat: &Pat)
        requires
            old(self).wf(),
        ensures
            final(self).wf(),
            final(self)@.pids == old(self)@.pids,
            final(self)@.programs == tracked_after(
                old(self)@.programs,
                pat@.programs,
                pat@.programs.len() as int,
            ),
    {
        let ghost start = self@;
        let ghost listed = pat@.programs;
        let mut i: usize = 0;
        assert(self@.programs =~= tracked_after(start.programs, listed, 0));
        while i < pat.programs.len()
            invariant
                i <= pat.programs.len(),
                self.wf(),
                listed == pat@.programs,
                self@.pids == start.pids,
                self@.programs == tracked_after(start.programs, listed, i as int),
            decreases pat.programs.len() - i,
        {
            let number = pat.programs[i].number;
            let ghost before = self@.programs;
            proof {
                assert(listed.take(i + 1).drop_last() =~= listed.take(i as int));
                assert(listed.take(i + 1).last() == listed[i as int]);
                lemma_listed_has_pid(listed, i as int);
                assert(listed[i as int].number == number);
                assert forall|n: u16|
                    pid_of(listed.take(i + 1), n) is Some <==> (n == number || pid_of(
                        listed.take(i as int),
                        n,
                    ) is Some) by {}
            }
            let ghost target = tracked_after(start.programs, listed, i + 1);
            if !self.programs.contains_key(&number) {
                assert(!before.contains_key(number));
                if let Some(pid) = lookup_pid(&pat.programs, number) {
                    let prog = Program {
                        program_info: ProgramInfo { number, pid },
                        pmt: None,
                        enabled: false,
                    };
                    self.programs.insert(number, prog);
                    assert(self@.programs =~= before.insert(
                        number,
                        fresh_program(ProgramInfo { number, pid }),
                    ));
                    assert(self@.programs =~= target);
                } else {
                    // The list gives a PID to every program that it names.
                    assert(false);
                }
            } else {
                assert(before.contains_key(number));
                assert(self@.programs =~= target);
            }
            i += 1;
        }
        assert(listed.take(i as int) =~= listed);
    }

    /// Reconciles the tracked programs with a new association table.
    pub fn on_pat(&mut self, pat: &Pat)
        requires
            old(self).wf(),
        ensures
            final(self).wf(),
            final(self)@ == reconciled(old(self)@, pat@.programs),
    {
        let ghost start = self@;
        self.drop_dead(pat);
        self.track_listed(pat);
        proof {
            let listed = pat@.programs;
            assert(listed.take(listed.len() as int) =~= listed);
            assert(self@.programs =~= reconciled(start, listed).programs) by {
                assert forall|n: u16| #[trigger]
                    start.programs.contains_key(n) && survives(
                        start.programs[n],
                        listed,
                    ) implies pid_of(listed, n) is Some by {
                    assert(start.programs[n].program_info.number == n);
                }
            }
        }
    }

    /// Routes one packet to the handler of its PID.
    pub fn on_pkt<'a>(&mut self, ctx: &mut Context, pkt: &'a TsPacket<'a>)
        requires
            old(self).wf(),
            pkt@.payload.len() + MAX_PSI_LEN <= usize::MAX,
            old(ctx).stats.within(u64::MAX - 1),
        ensures
            final(self).wf(),
            final(self)@ == route(old(self)@, pkt@).demult,
            final(ctx)@ == (ContextView {
                stats: old(ctx).stats.plus(route(old(self)@, pkt@).counted),
                events: old(ctx)@.events + route(old(self)@, pkt@).events,
            }),
    {
        let ghost start = self@;
        let ghost nothing = Seq::<EventView>::empty();
        assert(ctx@.events + nothing =~= ctx@.events);
        if pkt.pid == NULL_PID {
            ctx.stats.ignored_ts_packets += 1;
            return ;
        }
        match self.pids.remove(&pkt.pid) {
            None => {
                assert(self@.pids =~= start.pids);
                ctx.stats.ignored_ts_packets += 1;
            },
            Some(PidHandler::Pes) => {
                self.pids.insert(pkt.pid, PidHandler::Pes);
                assert(self@.pids =~= start.pids);
            },
            Some(PidHandler::Pat { control, psi, parser }) => {
                let mut control = control;
                let mut psi = psi;
                let mut parser = parser;
                let section = chain(&mut control, &mut psi, ctx, pkt);
                let mut fresh_table: Option<Pat> = None;
                if let Some(body) = section {
                    if parser.on_psi(ctx, body.as_slice()) {
                        if let Some(pat) = parser.current() {
                            fresh_table = Some(pat.clone());
                        }
                    }
                }
                self.pids.insert(pkt.pid, PidHandler::Pat { control, psi, parser });
                proof {
                    let r = route(start, pkt@);
                    assert(start.pids[pkt.pid] is Pat);
                    assert(self@.pids =~= start.pids.insert(pkt.pid, self@.pids[pkt.pid]));
                }
                if let Some(pat) = fresh_table {
                    self.on_pat(&pat);
                }
            },
            Some(PidHandler::Pmt { control, psi, parser }) => {
                let mut control = control;
                let mut psi = psi;
                let mut parser = parser;
                let section = chain(&mut control, &mut psi, ctx, pkt);
                let table = match section {
                    Some(body) => parser.parse_psi(ctx, body.as_slice()),
                    None => None,
                };
                self.pids.insert(pkt.pid, PidHandler::Pmt { control, psi, parser });
                proof {
                    assert(start.pids[pkt.pid] is Pmt);
                    assert(self@.pids =~= start.pids.insert(pkt.pid, self@.pids[pkt.pid]));
                }
                if let Some(pmt) = table {
                    self.on_pmt(ctx, pmt);
                }
            },
        }
    }

    /// The tracked programs, each once, in no particular order.
    pub fn programs(&self) -> (r: Vec<Program>)
        requires
            self.wf(),
        ensures
            forall|i: int|
                0 <= i < r@.len() ==> self@.programs.contains_key(
                    (#[trigger] r@[i]).program_info.number,
                ) && self@.programs[r@[i].program_info.number] == r@[i]@,
            forall|n: u16|
                self@.programs.contains_key(n) ==> exists|i: int|
                    0 <= i < r@.len() && (#[trigger] r@[i]).program_info.number == n,
            forall|i: int, j: int|
                0 <= i < j < r@.len() ==> (#[trigger] r@[i]).program_info.number != (
                #[trigger] r@[j]).program_info.number,
    {
        let numbers = self.program_numbers();
        let mut out: Vec<Program> = Vec::new();
        let mut i: usize = 0;
        while i < numbers.len()
            invariant
                i <= numbers.len(),
                self.wf(),
                out@.len() == i,
                numbers@.no_duplicates(),
                forall|n: u16| numbers@.contains(n) <==> self@.programs.contains_key(n),
                forall|k: int|
                    0 <= k < i ==> (#[trigger] out@[k]).program_info.number == numbers@[k]
                        && self@.programs[numbers@[k]] == out@[k]@,
            decreases numbers.len() - i,
        {
            let number = numbers[i];
            assert(numbers@.contains(number));
            match self.programs.get(&number) {
                Some(prog) => {
                    out.push(prog.clone());
                },
                None => {
                    // Each number is that of a tracked program.
                    assert(false);
                },
            }
            i += 1;
        }
        proof {
            assert forall|n: u16| self@.programs.contains_key(n) implies exists|i: int|
                0 <= i < out@.len() && (#[trigger] out@[i]).program_info.number == n by {
                assert(numbers@.contains(n));
                let k = choose|k: int| 0 <= k < numbers@.len() && numbers@[k] == n;
                assert(out@[k].program_info.number == n);
            }
            assert forall|i: int| 0 <= i < out@.len() implies self@.programs.contains_key(
                (#[trigger] out@[i]).program_info.number,
            ) by {
                assert(numbers@.contains(numbers@[i]));
            }
        }
        out
    }

    /// Starts to listen for the map of a program.
    pub fn enable_program(&mut self, program_number: u16) -> (r: Result<(), Error>)
        requires
            old(self).wf(),
        ensures
            final(self).wf(),
            final(self)@ == enabled(old(self)@, program_number),
            r is Ok <==> old(self)@.programs.contains_key(program_number),
            r is Err ==> r == Err::<(), Error>(Error::InvalidProgramNumber),
    {
        let ghost start = self@;
        match self.programs.remove(&program_number) {
            Some(prog) => {
                let mut prog = prog;
                assert(prog@ == start.programs[program_number]);
                if !prog.enabled {
                    prog.enabled = true;
                    let pid = prog.program_info.pid;
                    if pid != PAT_PID {
                        self.pids.insert(
                            pid,
                            PidHandler::Pmt {
                                control: PidControl::new(),
                                psi: PsiParser::new(PMT_TABLE_ID),
                                parser: PmtParser::new(),
                            },
                        );
                        assert(self@.pids =~= start.pids.insert(pid, fresh_pmt_handler()));
                    }
                }
                self.programs.insert(program_number, prog);
                assert(self@.programs =~= enabled(start, program_number).programs);
                Ok(())
            },
            None => {
                assert(self@.programs =~= start.programs);
                Err(Error::InvalidProgramNumber)
            },
        }
    }
}

/// A packet adds at most one to each counter of the router, and nothing to
/// the counters of the framer.
pub proof fn lemma_route_counts_once(d: DemultView, pkt: PacketView)
    ensures
        route(d, pkt).counted.within(1),
        route(d, pkt).counted.unsynchronized_bytes == 0,
        route(d, pkt).counted.malformed_ts_packets == 0,
{
}

/// The router keeps listening for the association table on its PID, and
/// keeps each program under its own number.
pub proof fn lemma_route_keeps_invariant(d: DemultView, pkt: PacketView)
    requires
        d.wf(),
    ensures
        route(d, pkt).demult.wf(),
{
}

/// Where a packet stands in the input does not matter to the router.
pub proof fn lemma_route_ignores_position(d: DemultView, pkt: PacketView, pos: i64)
    ensures
        route(d, PacketView { pos, ..pkt }) == route(d, pkt),
{
}

/// What the router, the counters and the events come to.
pub struct Delivered {
    pub demult: DemultView,
    pub stats: Stats,
    pub events: Seq<EventView>,
}

/// The router, the counters and the events after the packets were routed one
/// by one, each given as its 188 bytes.
pub open spec fn deliver_all(
    d: DemultView,
    stats: Stats,
    events: Seq<EventView>,
    packets: Seq<Seq<u8>>,
) -> Delivered
    decreases packets.len(),
{
    if packets.len() == 0 {
        Delivered { demult: d, stats, events }
    } else {
        let r = route(d, decode_packet(packets[0]).unwrap());
        deliver_all(r.demult, stats.plus(r.counted), events + r.events, packets.skip(1))
    }
}

/// Routing leaves the counters of the framer alone, and the events that
/// waited stay at the front of the queue, in their order.
pub proof fn lemma_deliver_all_appends(
    d: DemultView,
    stats: Stats,
    events: Seq<EventView>,
    packets: Seq<Seq<u8>>,
)
    ensures
        deliver_all(d, stats, events, packets).stats.unsynchronized_bytes
            == stats.unsynchronized_bytes,
        deliver_all(d, stats, events, packets).stats.malformed_ts_packets
            == stats.malformed_ts_packets,
        deliver_all(d, stats, events, packets).events.len() >= events.len(),
        deliver_all(d, stats, events, packets).events.take(events.len() as int) == events,
    decreases packets.len(),
{
    if packets.len() == 0 {
        assert(events.take(events.len() as int) =~= events);
    } else {
        let r = route(d, decode_packet(packets[0]).unwrap());
        lemma_route_counts_once(d, decode_packet(packets[0]).unwrap());
        lemma_deliver_all_appends(
            r.demult,
            stats.plus(r.counted),
            events + r.events,
            packets.skip(1),
        );
        let after = deliver_all(d, stats, events, packets).events;
        assert(after.take(events.len() as int) =~= after.take(
            (events + r.events).len() as int,
        ).take(events.len() as int));
        assert((events + r.events).take(events.len() as int) =~= events);
    }
}

/// A push of bytes that continue a stream of packets drops nothing and
/// finds nothing malformed: the counters of the framer stay as they are.
pub proof fn lemma_push_of_aligned_input(v: DemuxerView, data: Seq<u8>)
    requires
        aligned(v.framer.queue + data),
    ensures
        pushed(v, data).stats.unsynchronized_bytes == v.stats.unsynchronized_bytes,
        pushed(v, data).stats.malformed_ts_packets == v.stats.malformed_ts_packets,
        pushed(v, data).framer.consumed == v.framer.consumed + PACKET_SIZE * ((v.framer.queue
            + data).len() as int / PACKET_SIZE as int),
{
    let fr = frames(v.framer.queue + data, v.framer.synchronized);
    lemma_aligned_input_loses_nothing(v.framer.queue + data, v.framer.synchronized);
    lemma_deliver_all_appends(v.demult, v.stats, v.events, fr.delivered);
}

/// A push leaves the events that waited at the front of the queue, in their
/// order, and adds to the counters of the framer what the framer dropped.
pub proof fn lemma_push_appends(v: DemuxerView, data: Seq<u8>)
    ensures
        pushed(v, data).events.len() >= v.events.len(),
        pushed(v, data).events.take(v.events.len() as int) == v.events,
        pushed(v, data).stats.unsynchronized_bytes == (v.stats.unsynchronized_bytes + frames(
            v.framer.queue + data,
            v.framer.synchronized,
        ).dropped) as u64,
        pushed(v, data).stats.malformed_ts_packets == (v.stats.malformed_ts_packets + frames(
            v.framer.queue + data,
            v.framer.synchronized,
        ).malformed) as u64,
{
    let fr = frames(v.framer.queue + data, v.framer.synchronized);
    lemma_deliver_all_appends(v.demult, v.stats, v.events, fr.delivered);
}

/// The demultiplexer: bytes are pushed in, events are polled.
pub struct Demuxer {
    ctx: Context,
    ts_parser: TsParser,
    demult: Demult,
}

/// A demultiplexer as a mathematical value.
pub struct DemuxerView {
    /// The framer, with the bytes that wait for more.
    pub framer: FramerState,
    /// The router.
    pub demult: DemultView,
    /// The counters.
    pub stats: Stats,
    /// The events that wait to be polled, oldest first.
    pub events: Seq<EventView>,
}

/// The demultiplexer after `data` was pushed: the framer finds the packets
/// in what it held and `data`, and the router takes them in one by one.
pub open spec fn pushed(v: DemuxerView, data: Seq<u8>) -> DemuxerView {
    let fr = frames(v.framer.queue + data, v.framer.synchronized);
    let dl = deliver_all(v.demult, v.stats, v.events, fr.delivered);
    DemuxerView {
        framer: FramerState {
            queue: fr.rest,
            synchronized: fr.synchronized,
            consumed: v.framer.consumed + fr.dropped + PACKET_SIZE * fr.delivered.len(),
        },
        demult: dl.demult,
        stats: dropping(dl.stats, fr.dropped, fr.malformed),
        events: dl.events,
    }
}

impl View for Demuxer {
    type V = DemuxerView;

    closed spec fn view(&self) -> DemuxerView {
        DemuxerView {
            framer: self.ts_parser@,
            demult: self.demult@,
            stats: self.ctx.stats,
            events: self.ctx@.events,
        }
    }
}

impl Demuxer {
    /// What holds of every demultiplexer between two calls: fewer bytes than
    /// a packet wait in the framer, and no counter exceeds the number of
    /// bytes consumed.
    pub closed spec fn wf(&self) -> bool {
        &&& self.ts_parser.wf()
        &&& self.demult.wf()
        &&& self@.framer.queue.len() < PACKET_SIZE
        &&& 0 <= self@.framer.consumed
        &&& self@.framer.consumed + self@.framer.queue.len() <= i64::MAX
        &&& self@.stats.within(self@.framer.consumed)
    }

    /// The number of bytes pushed so far.
    pub open spec fn total_pushed(&self) -> int {
        self@.framer.consumed + self@.framer.queue.len()
    }

    /// What every demultiplexer keeps to between two calls.
    pub proof fn lemma_invariants(&self)
        requires
            self.wf(),
        ensures
            self@.demult.wf(),
            self@.framer.queue.len() < PACKET_SIZE,
            0 <= self.total_pushed() <= i64::MAX,
            self@.stats.within(self@.framer.consumed),
    {
    }

    /// The number of bytes pushed so far.
    pub fn bytes_pushed(&self) -> (n: i64)
        requires
            self.wf(),
        ensures
            n == self.total_pushed(),
    {
        self.ts_parser.consumed() + self.ts_parser.pending() as i64
    }

    /// A demultiplexer that has seen no byte: it listens for the association
    /// table alone, tracks no program, and all its counters are zero.
    pub fn new() -> (d: Demuxer)
        ensures
            d.wf(),
            d@ == (DemuxerView {
                framer: FramerState { queue: Seq::empty(), synchronized: false, consumed: 0 },
                demult: DemultView {
                    pids: Map::<u16, HandlerView>::empty().insert(PAT_PID, fresh_pat_handler()),
                    programs: Map::empty(),
                },
                stats: Stats::zero(),
                events: Seq::empty(),
            }),
    {
        Demuxer { ctx: Context::new(), ts_parser: TsParser::new(), demult: Demult::new() }
    }

    /// Feeds bytes to the framer and routes the packets it finds. Events
    /// queue up; none is returned.
    pub fn push(&mut self, data: &[u8])
        requires
            old(self).wf(),
            data@.len() + PACKET_SIZE <= usize::MAX,
            old(self).total_pushed() + data@.len() <= i64::MAX,
        ensures
            final(self).wf(),
            final(self)@ == pushed(old(self)@, data@),
            final(self).total_pushed() == old(self).total_pushed() + data@.len(),
            final(self)@.stats.grown_from(old(self)@.stats),
    {
        let ghost v0 = self@;
        let ghost q0 = v0.framer.queue + data@;
        let ghost total = frames(q0, v0.framer.synchronized);
        let ghost goal = deliver_all(v0.demult, v0.stats, v0.events, total.delivered);
        let ghost mut done: Seq<Seq<u8>> = Seq::empty();
        let ghost mut dropped: nat = seek(q0, v0.framer.synchronized).dropped;
        let ghost mut malformed: nat = seek(q0, v0.framer.synchronized).malformed;
        let ghost mut routed: Stats = v0.stats;
        proof {
            lemma_seek(q0, v0.framer.synchronized);
            lemma_frames_after_seek(q0, v0.framer.synchronized);
            lemma_frames_account_for_every_byte(q0, v0.framer.synchronized);
            assert(done + total.delivered =~= total.delivered);
        }
        let mut ready = self.ts_parser.parse(&mut self.ctx, data);
        while ready
            invariant
                self.ts_parser.wf(),
                self.demult.wf(),
                ready == self.ts_parser.ready(),
                ready == (self@.framer.queue.len() >= PACKET_SIZE),
                0 <= v0.framer.consumed,
                v0.stats.within(v0.framer.consumed),
                v0.framer.consumed + q0.len() <= i64::MAX,
                total == frames(q0, v0.framer.synchronized),
                goal == deliver_all(v0.demult, v0.stats, v0.events, total.delivered),
                total.delivered == done + frames(
                    self@.framer.queue,
                    self@.framer.synchronized,
                ).delivered,
                total.dropped == dropped + frames(
                    self@.framer.queue,
                    self@.framer.synchronized,
                ).dropped,
                total.malformed == malformed + frames(
                    self@.framer.queue,
                    self@.framer.synchronized,
                ).malformed,
                total.rest == frames(self@.framer.queue, self@.framer.synchronized).rest,
                total.synchronized == frames(
                    self@.framer.queue,
                    self@.framer.synchronized,
                ).synchronized,
                malformed <= dropped,
                dropped + PACKET_SIZE * done.len() + self@.framer.queue.len() == q0.len(),
                self@.framer.consumed == v0.framer.consumed + dropped + PACKET_SIZE * done.len(),
                routed.unsynchronized_bytes == v0.stats.unsynchronized_bytes,
                routed.malformed_ts_packets == v0.stats.malformed_ts_packets,
                routed.within(v0.framer.consumed + done.len()),
                self@.stats == dropping(routed, dropped, malformed),
                routed.grown_from(v0.stats),
                goal == deliver_all(
                    self@.demult,
                    routed,
                    self@.events,
                    frames(self@.framer.queue, self@.framer.synchronized).delivered,
                ),
            decreases self@.framer.queue.len(),
        {
            let ghost q = self@.framer.queue;
            let ghost raw = q.take(PACKET_SIZE as int);
            let ghost d = self@.demult;
            proof {
                lemma_seek(q, true);
                lemma_payload_fits(raw);
                lemma_route_counts_once(d, decode_packet(raw).unwrap());
                lemma_seek(q.skip(PACKET_SIZE as int), true);
                lemma_frames_after_seek(q.skip(PACKET_SIZE as int), true);
                assert((seq![raw] + frames(q.skip(PACKET_SIZE as int), true).delivered).skip(1)
                    =~= frames(q.skip(PACKET_SIZE as int), true).delivered);
                assert(done + (seq![raw] + frames(q.skip(PACKET_SIZE as int), true).delivered)
                    =~= done.push(raw) + frames(q.skip(PACKET_SIZE as int), true).delivered);
            }
            match self.ts_parser.packet() {
                Some(pkt) => {
                    proof {
                        lemma_route_ignores_position(d, decode_packet(raw).unwrap(), pkt.pos);
                    }
                    self.demult.on_pkt(&mut self.ctx, &pkt);
                },
                None => {
                    // A framer that is ready has a packet at its front.
                    assert(false);
                },
            }
            proof {
                routed = routed.plus(route(d, decode_packet(raw).unwrap()).counted);
                done = done.push(raw);
                dropped = dropped + seek(q.skip(PACKET_SIZE as int), true).dropped;
                malformed = malformed + seek(q.skip(PACKET_SIZE as int), true).malformed;
            }
            ready = self.ts_parser.next_packet(&mut self.ctx);
        }
        proof {
            lemma_seek(self@.framer.queue, self@.framer.synchronized);
        }
    }

    /// Takes the oldest event off the queue.
    pub fn poll_event(&mut self) -> (r: Option<Event>)
        requires
            old(self).wf(),
        ensures
            final(self).wf(),
            match r {
                Some(event) => old(self)@.events.len() > 0 && event@ == old(self)@.events[0]
                    && final(self)@ == (DemuxerView {
                    events: old(self)@.events.skip(1),
                    ..old(self)@
                }),
                None => old(self)@.events.len() == 0 && final(self)@ == old(self)@,
            },
    {
        let r = self.ctx.events.pop_front();
        proof {
            if r is Some {
                assert(self@.events =~= old(self)@.events.skip(1));
            } else {
                assert(self@.events =~= old(self)@.events);
            }
        }
        r
    }

    /// Pushes `data` and takes the oldest event off the queue.
    pub fn parse(&mut self, data: &[u8]) -> (r: Option<Event>)
        requires
            old(self).wf(),
            data@.len() + PACKET_SIZE <= usize::MAX,
            old(self).total_pushed() + data@.len() <= i64::MAX,
        ensures
            final(self).wf(),
            final(self).total_pushed() == old(self).total_pushed() + data@.len(),
            final(self)@.stats.grown_from(old(self)@.stats),
            match r {
                Some(event) => pushed(old(self)@, data@).events.len() > 0 && event@ == pushed(
                    old(self)@,
                    data@,
                ).events[0] && final(self)@ == (DemuxerView {
                    events: pushed(old(self)@, data@).events.skip(1),
                    ..pushed(old(self)@, data@)
                }),
                None => pushed(old(self)@, data@).events.len() == 0 && final(self)@ == pushed(
                    old(self)@,
                    data@,
                ),
            },
    {
        self.push(data);
        self.poll_event()
    }

    /// The tracked programs, each once, in no particular order.
    pub fn programs(&self) -> (r: Vec<Program>)
        requires
            self.wf(),
        ensures
            forall|i: int|
                0 <= i < r@.len() ==> self@.demult.programs.contains_key(
                    (#[trigger] r@[i]).program_info.number,
                ) && self@.demult.programs[r@[i].program_info.number] == r@[i]@,
            forall|n: u16|
                self@.demult.programs.contains_key(n) ==> exists|i: int|
                    0 <= i < r@.len() && (#[trigger] r@[i]).program_info.number == n,
            forall|i: int, j: int|
                0 <= i < j < r@.len() ==> (#[trigger] r@[i]).program_info.number != (
                #[trigger] r@[j]).program_info.number,
    {
        self.demult.programs()
    }

    /// Starts to listen for the map of a program. The request is refused
    /// where no program with the number is tracked.
    pub fn enable_program(&mut self, program_number: u16) -> (r: Result<(), Error>)
        requires
            old(self).wf(),
        ensures
            final(self).wf(),
            final(self)@ == (DemuxerView {
                demult: enabled(old(self)@.demult, program_number),
                ..old(self)@
            }),
            r is Ok <==> old(self)@.demult.programs.contains_key(program_number),
            r is Err ==> r == Err::<(), Error>(Error::InvalidProgramNumber),
    {
        self.demult.enable_program(program_number)
    }

    /// The counters as they stand.
    pub fn stats_snapshot(&self) -> (s: Stats)
        ensures
            s == self@.stats,
    {
        self.ctx.stats
    }
}

} // verus!
