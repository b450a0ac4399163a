use tsdemux::crc::mpeg2;
use tsdemux::error::Error;
use tsdemux::mp2t::demuxer::{Demuxer, Event, Program};
use tsdemux::mp2t::ProgramInfo;
use tsdemux::stats::Stats;

/// A section with its header and its checksum around `body`.
fn section(table_id: u8, body: &[u8]) -> Vec<u8> {
    let len = body.len() + 4;
    let mut s = vec![table_id, 0xB0 | (len >> 8) as u8, len as u8];
    s.extend(body);
    let crc = mpeg2(&s);
    s.extend(crc.to_be_bytes());
    s
}

/// A packet that carries `payload`, padded to its full length.
fn packet(pid: u16, cc: u8, payload_start: bool, payload: &[u8]) -> Vec<u8> {
    let mut p = vec![
        0x47,
        (if payload_start { 0x40 } else { 0x00 }) | (pid >> 8) as u8,
        pid as u8,
        0x10 | (cc & 0x0F),
    ];
    p.extend(payload);
    assert!(p.len() <= 188);
    p.resize(188, 0xFF);
    p
}

/// A packet that carries one whole section.
fn section_packet(pid: u16, cc: u8, table_id: u8, body: &[u8]) -> Vec<u8> {
    let mut payload = vec![0x00];
    payload.extend(section(table_id, body));
    packet(pid, cc, true, &payload)
}

fn pat_body(version: u8, programs: &[(u16, u16)]) -> Vec<u8> {
    let mut b = vec![0x00, 0x01, 0xC1 | (version << 1), 0x00, 0x00];
    for (number, pid) in programs {
        b.extend(number.to_be_bytes());
        b.extend((0xE000 | pid).to_be_bytes());
    }
    b
}

fn pmt_body(program: u16, version: u8, streams: &[(u8, u16)]) -> Vec<u8> {
    let mut b = Vec::new();
    b.extend(program.to_be_bytes());
    b.extend([0xC1 | (version << 1), 0x00, 0x00, 0xE1, 0x01, 0xF0, 0x00]);
    for (stream_type, pid) in streams {
        b.push(*stream_type);
        b.extend((0xE000 | pid).to_be_bytes());
        b.extend([0xF0, 0x00]);
    }
    b
}

fn sorted(mut programs: Vec<Program>) -> Vec<Program> {
    programs.sort_by_key(|p| p.program_info.number);
    programs
}

fn drain(demuxer: &mut Demuxer) -> Vec<Event> {
    let mut events = Vec::new();
    while let Some(e) = demuxer.poll_event() {
        events.push(e);
    }
    events
}

#[test]
fn fresh_demuxer() {
    let mut demuxer = Demuxer::new();
    assert!(demuxer.programs().is_empty());
    assert!(demuxer.poll_event().is_none());
    assert_eq!(demuxer.stats_snapshot(), Stats::default());
    assert_eq!(
        demuxer.enable_program(1),
        Err(Error::InvalidProgramNumber)
    );
}

#[test]
fn pat_is_reported_and_programs_are_tracked() {
    let mut demuxer = Demuxer::new();
    demuxer.push(&section_packet(0, 0, 0, &pat_body(0, &[(1, 0x100), (2, 0x200)])));

    let events = drain(&mut demuxer);
    assert_eq!(events.len(), 1);
    match &events[0] {
        Event::Pat { new, old } => {
            assert_eq!(new.transport_stream_id, 1);
            assert_eq!(
                new.programs,
                vec![
                    ProgramInfo {
                        number: 1,
                        pid: 0x100
                    },
                    ProgramInfo {
                        number: 2,
                        pid: 0x200
                    }
                ]
            );
            assert!(old.is_none());
        }
        _ => panic!("not a match"),
    }
    let programs = sorted(demuxer.programs());
    assert_eq!(programs.len(), 2);
    assert_eq!(programs[0].program_info.number, 1);
    assert_eq!(programs[0].program_info.pid, 0x100);
    assert!(!programs[0].enabled);
    assert!(programs[0].pmt.is_none());
    assert_eq!(programs[1].program_info.number, 2);
    assert_eq!(demuxer.stats_snapshot(), Stats::default());
}

#[test]
fn same_pat_twice_is_reported_once() {
    let mut demuxer = Demuxer::new();
    let body = pat_body(0, &[(1, 0x100)]);
    demuxer.push(&section_packet(0, 0, 0, &body));
    demuxer.push(&section_packet(0, 1, 0, &body));

    assert_eq!(drain(&mut demuxer).len(), 1);
    assert_eq!(demuxer.stats_snapshot(), Stats::default());
}

#[test]
fn pmt_is_ignored_until_its_program_is_enabled() {
    let mut demuxer = Demuxer::new();
    demuxer.push(&section_packet(0, 0, 0, &pat_body(0, &[(1, 0x100)])));
    demuxer.push(&section_packet(0x100, 0, 2, &pmt_body(1, 0, &[(0x1B, 0x101)])));

    assert_eq!(drain(&mut demuxer).len(), 1);
    assert_eq!(demuxer.stats_snapshot().ignored_ts_packets, 1);

    assert_eq!(demuxer.enable_program(1), Ok(()));
    assert_eq!(demuxer.enable_program(1), Ok(()));
    assert_eq!(
        demuxer.enable_program(7),
        Err(Error::InvalidProgramNumber)
    );
    assert!(demuxer.programs()[0].enabled);

    demuxer.push(&section_packet(
        0x100,
        1,
        2,
        &pmt_body(1, 0, &[(0x1B, 0x101), (0x0F, 0x102)]),
    ));
    let events = drain(&mut demuxer);
    assert_eq!(events.len(), 1);
    match &events[0] {
        Event::Pmt { new, old } => {
            assert_eq!(new.program_number, 1);
            assert_eq!(new.pcr_pid, 0x101);
            assert_eq!(new.streams.len(), 2);
            assert_eq!(new.streams[1].pid, 0x102);
            assert_eq!(new.streams[1].index, 1);
            assert!(old.is_none());
        }
        _ => panic!("not a match"),
    }
    let programs = demuxer.programs();
    assert_eq!(programs[0].pmt.as_ref().map(|p| p.streams.len()), Some(2));

    // The same map again is not reported; its streams are listened for.
    demuxer.push(&section_packet(
        0x100,
        2,
        2,
        &pmt_body(1, 0, &[(0x1B, 0x101), (0x0F, 0x102)]),
    ));
    demuxer.push(&packet(0x101, 0, true, &[0, 0, 1, 0xE0]));
    demuxer.push(&packet(0x102, 0, true, &[0, 0, 1, 0xC0]));
    demuxer.push(&packet(0x103, 0, true, &[0, 0, 1, 0xC0]));
    assert!(drain(&mut demuxer).is_empty());
    assert_eq!(demuxer.stats_snapshot().ignored_ts_packets, 2);

    // A new version of the map is reported with the one it replaces.
    demuxer.push(&section_packet(0x100, 3, 2, &pmt_body(1, 1, &[(0x1B, 0x101)])));
    let events = drain(&mut demuxer);
    assert_eq!(events.len(), 1);
    match &events[0] {
        Event::Pmt { new, old } => {
            assert_eq!(new.version, 1);
            assert_eq!(old.as_ref().map(|p| p.version), Some(0));
        }
        _ => panic!("not a match"),
    }
}

#[test]
fn new_pat_drops_programs_and_their_handlers() {
    let mut demuxer = Demuxer::new();
    demuxer.push(&section_packet(
        0,
        0,
        0,
        &pat_body(0, &[(1, 0x100), (2, 0x200), (3, 0x300)]),
    ));
    assert_eq!(demuxer.enable_program(1), Ok(()));
    assert_eq!(demuxer.enable_program(2), Ok(()));
    assert_eq!(demuxer.enable_program(3), Ok(()));
    demuxer.push(&section_packet(0x100, 0, 2, &pmt_body(1, 0, &[(0x1B, 0x101)])));
    demuxer.push(&section_packet(0x200, 0, 2, &pmt_body(2, 0, &[(0x1B, 0x201)])));
    demuxer.push(&section_packet(0x300, 0, 2, &pmt_body(3, 0, &[(0x1B, 0x301)])));
    assert_eq!(drain(&mut demuxer).len(), 4);
    assert_eq!(demuxer.stats_snapshot().ignored_ts_packets, 0);

    // Program 1 moves to another PID, program 2 is gone, program 3 stays and
    // program 4 is new.
    demuxer.push(&section_packet(
        0,
        1,
        0,
        &pat_body(1, &[(1, 0x110), (3, 0x300), (4, 0x400)]),
    ));
    let events = drain(&mut demuxer);
    assert_eq!(events.len(), 1);
    match &events[0] {
        Event::Pat { new, old } => {
            assert_eq!(new.version, 1);
            assert_eq!(old.as_ref().map(|p| p.programs.len()), Some(3));
        }
        _ => panic!("not a match"),
    }
    let programs = sorted(demuxer.programs());
    let numbers: Vec<u16> = programs.iter().map(|p| p.program_info.number).collect();
    assert_eq!(numbers, vec![1, 3, 4]);
    assert_eq!(programs[0].program_info.pid, 0x110);
    assert!(!programs[0].enabled);
    assert!(programs[0].pmt.is_none());
    assert!(programs[1].enabled);
    assert!(programs[1].pmt.is_some());
    assert!(!programs[2].enabled);

    // The handlers of programs 1 and 2 are gone, those of program 3 stay.
    demuxer.push(&packet(0x100, 1, true, &[0]));
    demuxer.push(&packet(0x101, 0, true, &[0]));
    demuxer.push(&packet(0x200, 1, true, &[0]));
    demuxer.push(&packet(0x201, 0, true, &[0]));
    assert_eq!(demuxer.stats_snapshot().ignored_ts_packets, 4);
    demuxer.push(&packet(0x301, 0, true, &[0]));
    demuxer.push(&section_packet(0x300, 1, 2, &pmt_body(3, 1, &[(0x1B, 0x301)])));
    assert_eq!(demuxer.stats_snapshot().ignored_ts_packets, 4);
    assert_eq!(drain(&mut demuxer).len(), 1);
}

#[test]
fn null_packets_and_unknown_pids_are_ignored() {
    let mut demuxer = Demuxer::new();
    demuxer.push(&packet(0x1FFF, 0, false, &[]));
    demuxer.push(&packet(0x0042, 0, false, &[]));
    assert_eq!(demuxer.stats_snapshot().ignored_ts_packets, 2);
    assert!(drain(&mut demuxer).is_empty());
}

#[test]
fn pat_handler_stays_on_pid_0() {
    let mut demuxer = Demuxer::new();
    // A program that claims PID 0 for its map, which also lists PID 0.
    demuxer.push(&section_packet(0, 0, 0, &pat_body(0, &[(1, 0x000), (2, 0x200)])));
    assert_eq!(demuxer.enable_program(1), Ok(()));
    assert_eq!(demuxer.enable_program(2), Ok(()));
    demuxer.push(&section_packet(0x200, 0, 2, &pmt_body(2, 0, &[(0x1B, 0x000)])));
    assert_eq!(drain(&mut demuxer).len(), 2);
    // Both programs go; the association table is still listened for.
    demuxer.push(&section_packet(0, 1, 0, &pat_body(1, &[(3, 0x300)])));
    demuxer.push(&section_packet(0, 2, 0, &pat_body(2, &[(4, 0x400)])));
    assert_eq!(drain(&mut demuxer).len(), 2);
    assert_eq!(demuxer.stats_snapshot().ignored_ts_packets, 0);
    assert_eq!(demuxer.stats_snapshot().invalid_psi, 0);
}

#[test]
fn duplicate_and_jump_on_the_pat_pid() {
    let mut demuxer = Demuxer::new();
    let first = section_packet(0, 4, 0, &pat_body(0, &[(1, 0x100)]));
    demuxer.push(&first);
    demuxer.push(&first);
    assert_eq!(demuxer.stats_snapshot().duplicate_ts_packets, 1);
    assert_eq!(demuxer.stats_snapshot().continuity_counter_errors, 0);
    demuxer.push(&section_packet(0, 9, 0, &pat_body(1, &[(1, 0x100)])));
    assert_eq!(demuxer.stats_snapshot().continuity_counter_errors, 1);
    assert_eq!(drain(&mut demuxer).len(), 2);
}

/// The payloads of two packets that together carry a table of fifty
/// programs.
fn long_pat() -> (Vec<u8>, Vec<u8>) {
    let programs: Vec<(u16, u16)> = (1..=50).map(|n| (n, 0x100 + n)).collect();
    let mut payload = vec![0x00];
    payload.extend(section(0, &pat_body(0, &programs)));
    assert!(payload.len() > 184);
    (payload[..184].to_vec(), payload[184..].to_vec())
}

#[test]
fn section_over_two_packets() {
    let mut demuxer = Demuxer::new();
    let (first, second) = long_pat();
    demuxer.push(&packet(0, 0, true, &first));
    assert!(drain(&mut demuxer).is_empty());
    demuxer.push(&packet(0, 1, false, &second));
    let events = drain(&mut demuxer);
    assert_eq!(events.len(), 1);
    assert_eq!(demuxer.programs().len(), 50);
    assert_eq!(demuxer.stats_snapshot(), Stats::default());
}

#[test]
fn jump_discards_the_section_in_progress() {
    let mut demuxer = Demuxer::new();
    let (first, second) = long_pat();
    // The section arrives in two packets; a packet between them is lost.
    demuxer.push(&packet(0, 0, true, &first));
    demuxer.push(&packet(0, 2, false, &second));
    assert!(drain(&mut demuxer).is_empty());
    let stats = demuxer.stats_snapshot();
    assert_eq!(stats.continuity_counter_errors, 1);
    assert_eq!(stats.skipped_unstarted_psi_pkts, 1);
    assert_eq!(stats.invalid_psi, 0);
}

#[test]
fn section_with_a_wrong_checksum_on_the_pat_pid() {
    let mut demuxer = Demuxer::new();
    let mut pkt = section_packet(0, 0, 0, &pat_body(0, &[(1, 0x100)]));
    pkt[10] ^= 0x01;
    demuxer.push(&pkt);
    assert!(drain(&mut demuxer).is_empty());
    let stats = demuxer.stats_snapshot();
    assert_eq!(stats.psi_crc_errors, 1);
    assert_eq!(stats.invalid_psi, 1);
}

#[test]
fn invalid_pmt_on_an_enabled_program() {
    let mut demuxer = Demuxer::new();
    demuxer.push(&section_packet(0, 0, 0, &pat_body(0, &[(1, 0x100)])));
    assert_eq!(demuxer.enable_program(1), Ok(()));
    let mut body = pmt_body(1, 0, &[(0x1B, 0x101)]);
    body[3] = 1;
    demuxer.push(&section_packet(0x100, 0, 2, &body));
    assert_eq!(drain(&mut demuxer).len(), 1);
    let stats = demuxer.stats_snapshot();
    assert_eq!(stats.invalid_pmt, 1);
    assert_eq!(stats.invalid_psi, 0);
}

#[test]
fn bytes_pushed_in_small_pieces() {
    let mut stream: Vec<u8> = vec![0x00, 0x11, 0x22];
    stream.extend(section_packet(0, 0, 0, &pat_body(0, &[(1, 0x100)])));
    stream.extend(packet(0x1FFF, 0, false, &[]));
    stream.extend(section_packet(0, 1, 0, &pat_body(1, &[(1, 0x100)])));
    let mut demuxer = Demuxer::new();
    for piece in stream.chunks(50) {
        demuxer.push(piece);
    }
    assert_eq!(drain(&mut demuxer).len(), 2);
    let stats = demuxer.stats_snapshot();
    assert_eq!(stats.unsynchronized_bytes, 3);
    assert_eq!(stats.malformed_ts_packets, 0);
    assert_eq!(stats.ignored_ts_packets, 1);
}

#[test]
fn parse_pushes_and_polls() {
    let mut demuxer = Demuxer::new();
    let mut stream = section_packet(0, 0, 0, &pat_body(0, &[(1, 0x100)]));
    stream.extend(section_packet(0, 1, 0, &pat_body(1, &[(1, 0x100)])));
    match demuxer.parse(&stream) {
        Some(Event::Pat { new, .. }) => assert_eq!(new.version, 0),
        _ => panic!("not a match"),
    }
    match demuxer.parse(&[]) {
        Some(Event::Pat { new, .. }) => assert_eq!(new.version, 1),
        _ => panic!("not a match"),
    }
    assert!(demuxer.parse(&[]).is_none());
}

#[test]
fn error_message() {
    assert_eq!(Error::InvalidProgramNumber.message(), "Invalid program number");
}

#[test]
fn bytes_pushed_are_counted() {
    let mut demuxer = Demuxer::new();
    assert_eq!(demuxer.bytes_pushed(), 0);
    demuxer.push(&[0u8; 100]);
    assert_eq!(demuxer.bytes_pushed(), 100);
    demuxer.push(&packet(0x1FFF, 0, false, &[]));
    assert_eq!(demuxer.bytes_pushed(), 288);
}

#[test]
fn counters_never_shrink() {
    let mut stream: Vec<u8> = vec![0x00, 0x11, 0x22];
    stream.extend(section_packet(0, 0, 0, &pat_body(0, &[(1, 0x100)])));
    stream.extend(packet(0x1FFF, 0, false, &[]));
    stream.extend(section_packet(0, 0, 0, &pat_body(0, &[(1, 0x100)])));
    stream.extend(section_packet(0, 7, 2, &pat_body(1, &[(1, 0x100)])));
    stream.extend(packet(0, 8, false, &[0xFF]));
    let mut demuxer = Demuxer::new();
    let mut last = demuxer.stats_snapshot();
    for piece in stream.chunks(97) {
        demuxer.push(piece);
        let now = demuxer.stats_snapshot();
        assert!(now.unsynchronized_bytes >= last.unsynchronized_bytes);
        assert!(now.malformed_ts_packets >= last.malformed_ts_packets);
        assert!(now.duplicate_ts_packets >= last.duplicate_ts_packets);
        assert!(now.ignored_ts_packets >= last.ignored_ts_packets);
        assert!(now.continuity_counter_errors >= last.continuity_counter_errors);
        assert!(now.invalid_psi >= last.invalid_psi);
        assert!(now.psi_crc_errors >= last.psi_crc_errors);
        assert!(now.skipped_unstarted_psi_pkts >= last.skipped_unstarted_psi_pkts);
        last = now;
    }
    assert_eq!(last.unsynchronized_bytes, 3);
    assert_eq!(last.ignored_ts_packets, 1);
    assert_eq!(last.duplicate_ts_packets, 1);
    assert_eq!(last.continuity_counter_errors, 1);
    assert_eq!(last.invalid_psi, 1);
    assert_eq!(last.skipped_unstarted_psi_pkts, 1);
}
