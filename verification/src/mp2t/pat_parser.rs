//! Decoding of program association sections, and the table last seen.

use crate::context::{Context, ContextView};
use crate::internal::bitfield::{bit_u8, bits_u16, bits_u8, field, flag};
use crate::internal::cursor::{be16, get_u16, get_u8, lemma_big_endian_2};
use crate::mp2t::demuxer::{pat_option_view, Event, EventView};
use crate::mp2t::{Pat, PatView, ProgramInfo};
use crate::stats::Stats;
use vstd::prelude::*;

verus! {

/// Length of the fixed part of a section body.
pub const PAT_FIXED_LEN: usize = 5;

/// Number of whole entries behind the fixed part of a section body.
pub open spec fn entry_count(psi: Seq<u8>) -> nat {
    if psi.len() < PAT_FIXED_LEN {
        0
    } else {
        ((psi.len() - PAT_FIXED_LEN) / 4) as nat
    }
}

/// Entry `i` of a section body: a program number and, in the lower 13 bits
/// of the next two bytes, a PID.
pub open spec fn entry(psi: Seq<u8>, i: int) -> ProgramInfo {
    ProgramInfo {
        number: be16(psi, PAT_FIXED_LEN + 4 * i) as u16,
        pid: field(be16(psi, PAT_FIXED_LEN + 4 * i + 2), 12, 0) as u16,
    }
}

/// The entries of a section body, in order.
pub open spec fn entries(psi: Seq<u8>) -> Seq<ProgramInfo> {
    Seq::new(entry_count(psi), |i: int| entry(psi, i))
}

/// The entries that stand for a program: those with a number other than zero.
pub open spec fn programs_of(entries: Seq<ProgramInfo>) -> Seq<ProgramInfo> {
    entries.filter(|e: ProgramInfo| e.number != 0)
}

/// The PID of the last entry with the number zero, which names the network
/// information table.
pub open spec fn network_pid_of(entries: Seq<ProgramInfo>) -> Option<u16> {
    let zero = entries.filter(|e: ProgramInfo| e.number == 0);
    if zero.len() == 0 {
        None
    } else {
        Some(zero.last().pid)
    }
}

/// The table that a section body decodes to; `None` where the body is
/// shorter than its fixed part. Fewer than four trailing bytes are passed
/// over. The section numbers are reported as they stand: a table that is
/// split over several sections is not put together, each section counts as
/// a table of its own.
pub open spec fn parse_pat(psi: Seq<u8>) -> Option<PatView> {
    if psi.len() < PAT_FIXED_LEN {
        None
    } else {
        Some(
            PatView {
                transport_stream_id: be16(psi, 0) as u16,
                version: field(psi[2] as int, 5, 1) as u8,
                current_next: flag(psi[2] as int, 0),
                section: psi[3],
                last_section: psi[4],
                network_pid: network_pid_of(entries(psi)),
                programs: programs_of(entries(psi)),
            },
        )
    }
}

/// The table last seen, as the parser keeps it.
pub struct PatParser {
    current: Option<Pat>,
}

impl View for PatParser {
    type V = Option<PatView>;

    closed spec fn view(&self) -> Option<PatView> {
        pat_option_view(self.current)
    }
}

impl PatParser {
    /// A parser that has seen no table.
    pub fn new() -> (p: PatParser)
        ensures
            p@ is None,
    {
        PatParser { current: None }
    }

    /// The table last seen.
    pub fn current(&self) -> (r: &Option<Pat>)
        ensures
            pat_option_view(*r) == self@,
    {
        &self.current
    }

    /// Decodes a section body.
    #[verifier::loop_isolation(false)]
    pub fn parse(psi: &[u8]) -> (r: Option<Pat>)
        ensures
            pat_option_view(r) == parse_pat(psi@),
    {
        if psi.len() < PAT_FIXED_LEN {
            return None;
        }
        let (transport_stream_id, buf) = get_u16(psi);
        let (b, buf) = get_u8(buf);
        let version = bits_u8(b, 5, 1);
        let current_next = bit_u8(b, 0);
        let (section, buf) = get_u8(buf);
        let (last_section, buf) = get_u8(buf);
        proof {
            lemma_big_endian_2(psi@);
            assert(buf@ =~= psi@.skip(5));
        }
        let mut network_pid: Option<u16> = None;
        let mut programs: Vec<ProgramInfo> = Vec::new();
        let mut rest = buf;
        let ghost all = entries(psi@);
        let ghost mut k: int = 0;
        proof {
            reveal(Seq::filter);
            assert(all.take(0) =~= Seq::<ProgramInfo>::empty());
        }
        while rest.len() >= 4
            invariant
                0 <= k <= all.len(),
                rest@ == psi@.skip(PAT_FIXED_LEN + 4 * k),
                programs@ == programs_of(all.take(k)),
                network_pid == network_pid_of(all.take(k)),
            decreases rest@.len(),
        {
            let (program_number, after_number) = get_u16(rest);
            let (word, next) = get_u16(after_number);
            let pid = bits_u16(word, 12, 0);
            proof {
                lemma_big_endian_2(rest@);
                lemma_big_endian_2(after_number@);
                assert(next@ =~= psi@.skip(PAT_FIXED_LEN + 4 * (k + 1)));
                assert(k < all.len());
                let e = ProgramInfo { number: program_number, pid };
                assert(all[k] == e);
                assert(all.take(k + 1).drop_last() =~= all.take(k));
                assert(all.take(k + 1).last() == e);
                reveal(Seq::filter);
            }
            if program_number == 0 {
                network_pid = Some(pid);
            } else {
                programs.push(ProgramInfo { number: program_number, pid });
            }
            rest = next;
            proof {
                k = k + 1;
            }
        }
        proof {
            assert(k == all.len());
            assert(all.take(k) =~= all);
        }
        Some(
            Pat {
                transport_stream_id,
                version,
                current_next,
                section,
                last_section,
                network_pid,
                programs,
            },
        )
    }

    /// Takes in a decoded table. Where it differs from the one last seen, it
    /// takes that one's place and an event reports the change.
    pub fn update(&mut self, ctx: &mut Context, pat: Pat) -> (changed: bool)
        ensures
            changed == (old(self)@ != Some(pat@)),
            final(self)@ == Some(pat@),
            final(ctx)@.stats == old(ctx)@.stats,
            final(ctx)@.events == if changed {
                old(ctx)@.events.push(EventView::Pat { new: pat@, old: old(self)@ })
            } else {
                old(ctx)@.events
            },
    {
        let changed = match &self.current {
            Some(current) => !pat.same(current),
            None => true,
        };
        if changed {
            let old_pat = self.current.take();
            ctx.emit(Event::Pat { new: pat.clone(), old: old_pat });
            self.current = Some(pat);
        }
        changed
    }

    /// Decodes a section body and takes in the table. The result is whether
    /// the body decoded.
    pub fn parse_psi(&mut self, ctx: &mut Context, psi: &[u8]) -> (ok: bool)
        ensures
            ok == parse_pat(psi@) is Some,
            after_section(old(self)@, old(ctx)@, psi@) == (final(self)@, final(ctx)@),
    {
        match PatParser::parse(psi) {
            Some(pat) => {
                self.update(ctx, pat);
                true
            },
            None => false,
        }
    }

    /// Decodes a section body, takes in the table and counts a body that does
    /// not decode. The result is whether the table changed.
    pub fn on_psi(&mut self, ctx: &mut Context, psi: &[u8]) -> (changed: bool)
        requires
            old(ctx).stats.invalid_psi < u64::MAX,
        ensures
            changed == table_changes(old(self)@, psi@),
            final(self)@ == after_section(old(self)@, old(ctx)@, psi@).0,
            final(ctx)@.events == after_section(old(self)@, old(ctx)@, psi@).1.events,
            final(ctx)@.stats == if parse_pat(psi@) is Some {
                old(ctx)@.stats
            } else {
                Stats { invalid_psi: (old(ctx)@.stats.invalid_psi + 1) as u64, ..old(ctx)@.stats }
            },
    {
        match PatParser::parse(psi) {
            Some(pat) => self.update(ctx, pat),
            None => {
                ctx.stats.invalid_psi += 1;
                false
            },
        }
    }
}

/// Whether a section body decodes to a table other than the one last seen.
pub open spec fn table_changes(seen: Option<PatView>, psi: Seq<u8>) -> bool {
    parse_pat(psi) is Some && parse_pat(psi) != seen
}

/// The table last seen and the context once a section body was taken in: a
/// table that differs from the one last seen takes its place and is reported
/// by one event; nothing changes otherwise.
pub open spec fn after_section(seen: Option<PatView>, ctx: ContextView, psi: Seq<u8>) -> (
    Option<PatView>,
    ContextView,
) {
    if table_changes(seen, psi) {
        (
            parse_pat(psi),
            ContextView {
                events: ctx.events.push(EventView::Pat { new: parse_pat(psi).unwrap(), old: seen }),
                ..ctx
            },
        )
    } else {
        (seen, ctx)
    }
}

/// The same section twice is reported at most once: the second time
/// nothing changes, whatever table was seen before.
pub proof fn lemma_same_section_twice(seen: Option<PatView>, ctx: ContextView, psi: Seq<u8>)
    ensures
        ({
            let once = after_section(seen, ctx, psi);
            after_section(once.0, once.1, psi) == once
        }),
{
}

/// Of two equal sections that come first, exactly one is reported.
pub proof fn lemma_first_section_twice(ctx: ContextView, psi: Seq<u8>)
    requires
        parse_pat(psi) is Some,
    ensures
        ({
            let once = after_section(None, ctx, psi);
            after_section(once.0, once.1, psi).1.events == ctx.events.push(
                EventView::Pat { new: parse_pat(psi).unwrap(), old: None },
            )
        }),
{
}

} // verus!
