use tsdemux::context::Context;
use tsdemux::mp2t::ts_parser::{parse_packet, TsPacket, TsParser};

const PKT_NO_AF: &[u8] = &[
    0x47, 0x00, 0x65, 0x15, 0x9c, 0x04, 0x84, 0x4c, 0x16, 0x73, 0x53, 0x6e,
    0xb5, 0xf1, 0xd8, 0x55, 0x66, 0x62, 0xb8, 0xc7, 0x72, 0x31, 0xda, 0x0c,
    0x1a, 0xb2, 0x92, 0x28, 0x36, 0xd4, 0x10, 0xfb, 0x9c, 0x7e, 0xfa, 0xf7,
    0x13, 0xe1, 0xf6, 0x9f, 0xf9, 0x27, 0x39, 0x88, 0x90, 0x23, 0x25, 0x7c,
    0xcb, 0xe5, 0xbe, 0x1b, 0x57, 0xbc, 0xda, 0x1b, 0x98, 0xbb, 0xe1, 0xeb,
    0xcb, 0x23, 0xdc, 0x1f, 0x78, 0x9a, 0x45, 0x4c, 0x58, 0xd6, 0x4e, 0x1d,
    0x9b, 0xab, 0xe7, 0x0d, 0xe4, 0x68, 0x29, 0x58, 0x0d, 0x67, 0x1d, 0x5d,
    0xab, 0xd6, 0x5d, 0xe9, 0x1b, 0x3b, 0x1a, 0x5f, 0x0e, 0x4b, 0xed, 0x8e,
    0x41, 0xd8, 0xde, 0xef, 0x65, 0x5f, 0x70, 0x26, 0x90, 0x17, 0xab, 0x10,
    0x8a, 0xc4, 0xd4, 0xf1, 0x8e, 0x49, 0xce, 0x27, 0x28, 0xc2, 0x0f, 0xee,
    0xf6, 0xbb, 0x85, 0x15, 0x9a, 0x95, 0x79, 0x3d, 0x1d, 0x02, 0xb5, 0xdd,
    0x03, 0xc8, 0xec, 0x40, 0x44, 0xa8, 0x25, 0x17, 0x03, 0x17, 0xc9, 0x1d,
    0xce, 0x10, 0x59, 0x00, 0x9c, 0x99, 0xfa, 0x3d, 0xbd, 0xb1, 0x1b, 0x36,
    0xa6, 0x6c, 0x00, 0x00, 0x5e, 0x73, 0x8a, 0x28, 0x70, 0x41, 0x87, 0xec,
    0xa3, 0xa7, 0x0c, 0x0a, 0x36, 0xe7, 0x87, 0x7b, 0xcc, 0x64, 0x6d, 0x5a,
    0xf4, 0x10, 0xc6, 0xad, 0xe4, 0x92, 0x45, 0xa2,
];

const PKT_TINY_AF: &[u8] = &[
    0x47, 0x40, 0x00, 0x30, 0x01, 0x00, 0x00, 0x00, 0xb0, 0x0d, 0x00, 0x01,
    0xc1, 0x00, 0x00, 0x00, 0x01, 0xe0, 0x64, 0x85, 0x41, 0x2f, 0xea, 0xff,
    0xff, 0xff, 0xff, 0xff, 0xff, 0xff, 0xff, 0xff, 0xff, 0xff, 0xff, 0xff,
    0xff, 0xff, 0xff, 0xff, 0xff, 0xff, 0xff, 0xff, 0xff, 0xff, 0xff, 0xff,
    0xff, 0xff, 0xff, 0xff, 0xff, 0xff, 0xff, 0xff, 0xff, 0xff, 0xff, 0xff,
    0xff, 0xff, 0xff, 0xff, 0xff, 0xff, 0xff, 0xff, 0xff, 0xff, 0xff, 0xff,
    0xff, 0xff, 0xff, 0xff, 0xff, 0xff, 0xff, 0xff, 0xff, 0xff, 0xff, 0xff,
    0xff, 0xff, 0xff, 0xff, 0xff, 0xff, 0xff, 0xff, 0xff, 0xff, 0xff, 0xff,
    0xff, 0xff, 0xff, 0xff, 0xff, 0xff, 0xff, 0xff, 0xff, 0xff, 0xff, 0xff,
    0xff, 0xff, 0xff, 0xff, 0xff, 0xff, 0xff, 0xff, 0xff, 0xff, 0xff, 0xff,
    0xff, 0xff, 0xff, 0xff, 0xff, 0xff, 0xff, 0xff, 0xff, 0xff, 0xff, 0xff,
    0xff, 0xff, 0xff, 0xff, 0xff, 0xff, 0xff, 0xff, 0xff, 0xff, 0xff, 0xff,
    0xff, 0xff, 0xff, 0xff, 0xff, 0xff, 0xff, 0xff, 0xff, 0xff, 0xff, 0xff,
    0xff, 0xff, 0xff, 0xff, 0xff, 0xff, 0xff, 0xff, 0xff, 0xff, 0xff, 0xff,
    0xff, 0xff, 0xff, 0xff, 0xff, 0xff, 0xff, 0xff, 0xff, 0xff, 0xff, 0xff,
    0xff, 0xff, 0xff, 0xff, 0xff, 0xff, 0xff, 0xff,
];

const PKT_ZERO_AF: &[u8] = &[
    0x47, 0x40, 0x00, 0x30, 0x00, 0x62, 0xc7, 0x4b, 0xb0, 0x0d, 0x00, 0x01,
    0xb5, 0xf1, 0xd8, 0x55, 0x66, 0x62, 0xb8, 0xc7, 0x72, 0x31, 0xda, 0x0c,
    0x1a, 0xb2, 0x92, 0x28, 0x36, 0xd4, 0x10, 0xfb, 0x9c, 0x7e, 0xfa, 0xf7,
    0x13, 0xe1, 0xf6, 0x9f, 0xf9, 0x27, 0x39, 0x88, 0x90, 0x23, 0x25, 0x7c,
    0xcb, 0xe5, 0xbe, 0x1b, 0x57, 0xbc, 0xda, 0x1b, 0x98, 0xbb, 0xe1, 0xeb,
    0xcb, 0x23, 0xdc, 0x1f, 0x78, 0x9a, 0x45, 0x4c, 0x58, 0xd6, 0x4e, 0x1d,
    0x9b, 0xab, 0xe7, 0x0d, 0xe4, 0x68, 0x29, 0x58, 0x0d, 0x67, 0x1d, 0x5d,
    0xab, 0xd6, 0x5d, 0xe9, 0x1b, 0x3b, 0x1a, 0x5f, 0x0e, 0x4b, 0xed, 0x8e,
    0x41, 0xd8, 0xde, 0xef, 0x65, 0x5f, 0x70, 0x26, 0x90, 0x17, 0xab, 0x10,
    0x8a, 0xc4, 0xd4, 0xf1, 0x8e, 0x49, 0xce, 0x27, 0x28, 0xc2, 0x0f, 0xee,
    0xf6, 0xbb, 0x85, 0x15, 0x9a, 0x95, 0x79, 0x3d, 0x1d, 0x02, 0xb5, 0xdd,
    0x03, 0xc8, 0xec, 0x40, 0x44, 0xa8, 0x25, 0x17, 0x03, 0x17, 0xc9, 0x1d,
    0xce, 0x10, 0x59, 0x00, 0x9c, 0x99, 0xfa, 0x3d, 0xbd, 0xb1, 0x1b, 0x36,
    0xa6, 0x6c, 0x00, 0x00, 0x5e, 0x73, 0x8a, 0x28, 0x70, 0x41, 0x87, 0xec,
    0xa3, 0xa7, 0x0c, 0x0a, 0x36, 0xe7, 0x87, 0x7b, 0xcc, 0x64, 0x6d, 0x5a,
    0xf4, 0x10, 0xc6, 0xad, 0xe4, 0x92, 0x45, 0xa2,
];

const PKT_AF_PCR: &[u8] = &[
    0x47, 0x40, 0x65, 0x30, 0x07, 0x50, 0xde, 0x36, 0xea, 0x29, 0x80, 0x00,
    0x00, 0x00, 0x01, 0xe0, 0x34, 0x08, 0x84, 0xc0, 0x0a, 0x3d, 0xf1, 0xb7,
    0xc0, 0x1d, 0x1d, 0xf1, 0xb7, 0xa8, 0xa7, 0x00, 0x00, 0x00, 0x01, 0x09,
    0x10, 0x00, 0x00, 0x00, 0x01, 0x67, 0x64, 0x00, 0x20, 0xac, 0xd9, 0x40,
    0xf0, 0x11, 0x7e, 0xe1, 0x00, 0x00, 0x03, 0x03, 0xe9, 0x00, 0x01, 0xd4,
    0xc0, 0x8f, 0x18, 0x31, 0x96, 0x00, 0x00, 0x00, 0x01, 0x68, 0xea, 0xef,
    0x2c, 0x00, 0x00, 0x01, 0x06, 0x05, 0xff, 0xff, 0xf0, 0xdc, 0x45, 0xe9,
    0xbd, 0xe6, 0xd9, 0x48, 0xb7, 0x96, 0x2c, 0xd8, 0x20, 0xd9, 0x23, 0xee,
    0xef, 0x78, 0x32, 0x36, 0x34, 0x20, 0x2d, 0x20, 0x63, 0x6f, 0x72, 0x65,
    0x20, 0x31, 0x35, 0x37, 0x20, 0x72, 0x32, 0x39, 0x34, 0x35, 0x20, 0x37,
    0x32, 0x64, 0x62, 0x34, 0x33, 0x37, 0x20, 0x2d, 0x20, 0x48, 0x2e, 0x32,
    0x36, 0x34, 0x2f, 0x4d, 0x50, 0x45, 0x47, 0x2d, 0x34, 0x20, 0x41, 0x56,
    0x43, 0x20, 0x63, 0x6f, 0x64, 0x65, 0x63, 0x20, 0x2d, 0x20, 0x43, 0x6f,
    0x70, 0x79, 0x6c, 0x65, 0x66, 0x74, 0x20, 0x32, 0x30, 0x30, 0x33, 0x2d,
    0x32, 0x30, 0x31, 0x38, 0x20, 0x2d, 0x20, 0x68, 0x74, 0x74, 0x70, 0x3a,
    0x2f, 0x2f, 0x77, 0x77, 0x77, 0x2e, 0x76, 0x69,
];

const PKT_NO_PAYLOAD: &[u8] = &[
    0x47, 0x40, 0x65, 0x20, 0xB7, 0x50, 0xde, 0x36, 0xea, 0x29, 0x80, 0x00,
    0xff, 0xff, 0xff, 0xff, 0xff, 0xff, 0xff, 0xff, 0xff, 0xff, 0xff, 0xff,
    0xff, 0xff, 0xff, 0xff, 0xff, 0xff, 0xff, 0xff, 0xff, 0xff, 0xff, 0xff,
    0xff, 0xff, 0xff, 0xff, 0xff, 0xff, 0xff, 0xff, 0xff, 0xff, 0xff, 0xff,
    0xff, 0xff, 0xff, 0xff, 0xff, 0xff, 0xff, 0xff, 0xff, 0xff, 0xff, 0xff,
    0xff, 0xff, 0xff, 0xff, 0xff, 0xff, 0xff, 0xff, 0xff, 0xff, 0xff, 0xff,
    0xff, 0xff, 0xff, 0xff, 0xff, 0xff, 0xff, 0xff, 0xff, 0xff, 0xff, 0xff,
    0xff, 0xff, 0xff, 0xff, 0xff, 0xff, 0xff, 0xff, 0xff, 0xff, 0xff, 0xff,
    0xff, 0xff, 0xff, 0xff, 0xff, 0xff, 0xff, 0xff, 0xff, 0xff, 0xff, 0xff,
    0xff, 0xff, 0xff, 0xff, 0xff, 0xff, 0xff, 0xff, 0xff, 0xff, 0xff, 0xff,
    0xff, 0xff, 0xff, 0xff, 0xff, 0xff, 0xff, 0xff, 0xff, 0xff, 0xff, 0xff,
    0xff, 0xff, 0xff, 0xff, 0xff, 0xff, 0xff, 0xff, 0xff, 0xff, 0xff, 0xff,
    0xff, 0xff, 0xff, 0xff, 0xff, 0xff, 0xff, 0xff, 0xff, 0xff, 0xff, 0xff,
    0xff, 0xff, 0xff, 0xff, 0xff, 0xff, 0xff, 0xff, 0xff, 0xff, 0xff, 0xff,
    0xff, 0xff, 0xff, 0xff, 0xff, 0xff, 0xff, 0xff, 0xff, 0xff, 0xff, 0xff,
    0xff, 0xff, 0xff, 0xff, 0xff, 0xff, 0xff, 0xff,
];

/// Feeds `data` to a fresh framer and hands every packet it delivers to
/// `check`. Returns the number of packets delivered.
fn run(ctx: &mut Context, data: &[u8], check: fn(&TsPacket) -> bool) -> usize {
    let mut parser = TsParser::new();
    let mut delivered = 0;
    let mut ready = parser.parse(ctx, data);
    while ready {
        {
            let pkt = parser.packet().expect("a packet is ready");
            assert!(check(&pkt));
        }
        delivered += 1;
        ready = parser.next_packet(ctx);
    }
    delivered
}

fn repeat(parts: &[&[u8]]) -> Vec<u8> {
    let mut data: Vec<u8> = Vec::new();
    for part in parts {
        data.extend(part.iter().cloned());
    }
    data
}

#[test]
fn pkt_no_af() {
    let mut ctx = Context::new();
    let delivered = run(&mut ctx, PKT_NO_AF, |pkt| {
        pkt.pid == 0x65 && pkt.payload == &PKT_NO_AF[4..] && pkt.pcr.is_none()
    });
    assert_eq!(delivered, 1);

    assert_eq!(ctx.stats.unsynchronized_bytes, 0);
    assert_eq!(ctx.stats.malformed_ts_packets, 0);
}

#[test]
fn pkt_tiny_af() {
    let mut ctx = Context::new();
    let delivered = run(&mut ctx, PKT_TINY_AF, |pkt| {
        pkt.payload == &PKT_TINY_AF[6..] && pkt.pcr.is_none()
    });
    assert_eq!(delivered, 1);

    assert_eq!(ctx.stats.unsynchronized_bytes, 0);
    assert_eq!(ctx.stats.malformed_ts_packets, 0);
}

#[test]
fn pkt_af_pcr() {
    let mut ctx = Context::new();
    let delivered = run(&mut ctx, PKT_AF_PCR, |pkt| {
        pkt.payload == &PKT_AF_PCR[12..] && pkt.pcr.unwrap() == 2236884504900
    });
    assert_eq!(delivered, 1);

    assert_eq!(ctx.stats.unsynchronized_bytes, 0);
    assert_eq!(ctx.stats.malformed_ts_packets, 0);
}

#[test]
fn pkt_zero_af() {
    let mut ctx = Context::new();
    let delivered = run(&mut ctx, PKT_ZERO_AF, |pkt| pkt.payload == &PKT_ZERO_AF[5..]);
    assert_eq!(delivered, 1);

    assert_eq!(ctx.stats.unsynchronized_bytes, 0);
    assert_eq!(ctx.stats.malformed_ts_packets, 0);
}

#[test]
fn pkt_no_payload() {
    let mut ctx = Context::new();
    let delivered = run(&mut ctx, PKT_NO_PAYLOAD, |pkt| pkt.payload.len() == 0);
    assert_eq!(delivered, 1);

    assert_eq!(ctx.stats.unsynchronized_bytes, 0);
    assert_eq!(ctx.stats.malformed_ts_packets, 0);
}

#[test]
fn pkt_error_payload_indicated_but_not_present() {
    let mut ctx = Context::new();

    let mut data: Vec<u8> = PKT_NO_PAYLOAD.iter().cloned().collect();
    data[3] |= 0x10;
    let delivered = run(&mut ctx, &data, |_| true);
    assert_eq!(delivered, 0);

    assert_eq!(ctx.stats.malformed_ts_packets, 1);
}

#[test]
fn sync_no_skip() {
    let mut ctx = Context::new();

    let data = repeat(&[PKT_AF_PCR, PKT_AF_PCR, PKT_AF_PCR, PKT_AF_PCR]);
    let delivered = run(&mut ctx, &data, |_| true);
    assert_eq!(delivered, 4);

    assert_eq!(ctx.stats.unsynchronized_bytes, 0);
    assert_eq!(ctx.stats.malformed_ts_packets, 0);
}

#[test]
fn sync_start() {
    let mut ctx = Context::new();

    let data = repeat(&[&[0x1b, 0x47, 0xaa, 0x00], PKT_AF_PCR, PKT_AF_PCR, PKT_AF_PCR]);
    let delivered = run(&mut ctx, &data, |_| true);
    assert_eq!(delivered, 3);

    assert_eq!(ctx.stats.unsynchronized_bytes, 4);
    assert_eq!(ctx.stats.malformed_ts_packets, 0);
}

#[test]
fn sync_middle() {
    let mut ctx = Context::new();

    let data = repeat(&[
        PKT_AF_PCR,
        PKT_AF_PCR,
        &[0x00u8, 0x47, 0x00],
        PKT_AF_PCR,
        PKT_AF_PCR,
        PKT_AF_PCR,
        PKT_AF_PCR,
    ]);
    let delivered = run(&mut ctx, &data, |_| true);
    assert_eq!(delivered, 4);

    // The first two packets and the three stray bytes are skipped: at the
    // start of the stream four packets in a row are asked for.
    assert_eq!(ctx.stats.unsynchronized_bytes, 379);
    assert_eq!(ctx.stats.malformed_ts_packets, 0);
}

#[test]
fn resync() {
    let mut ctx = Context::new();

    let data = repeat(&[
        PKT_AF_PCR,
        PKT_AF_PCR,
        PKT_AF_PCR,
        PKT_AF_PCR,
        PKT_AF_PCR,
        &[0x00u8, 0x47, 0x00],
        PKT_AF_PCR,
        PKT_AF_PCR,
    ]);
    let delivered = run(&mut ctx, &data, |_| true);
    assert_eq!(delivered, 7);

    assert_eq!(ctx.stats.unsynchronized_bytes, 3);
    assert_eq!(ctx.stats.malformed_ts_packets, 1);
}

#[test]
fn packet_header_fields() {
    let pkt = parse_packet(PKT_AF_PCR).expect("the packet decodes");
    assert_eq!(pkt.pid, 0x65);
    assert_eq!(pkt.continuity_counter, 0);
    assert!(pkt.payload_start);
    assert!(!pkt.discontinuity);
    assert!(pkt.random_access);
    assert_eq!(pkt.raw_data, PKT_AF_PCR);
    assert_eq!(pkt.pos, 0);

    let pkt = parse_packet(PKT_NO_AF).expect("the packet decodes");
    assert_eq!(pkt.pid, 0x65);
    assert_eq!(pkt.continuity_counter, 5);
    assert!(!pkt.payload_start);
    assert!(!pkt.random_access);
}

#[test]
fn packet_without_sync_byte_is_refused() {
    let mut data: Vec<u8> = PKT_NO_AF.to_vec();
    data[0] = 0x48;
    assert!(parse_packet(&data).is_none());
}

#[test]
fn pcr_is_base_times_300_plus_extension() {
    // Base 1, extension 5: 33 bits of base, six reserved bits, nine bits of
    // extension.
    let mut data: Vec<u8> = PKT_AF_PCR.to_vec();
    data[6..12].copy_from_slice(&[0x00, 0x00, 0x00, 0x00, 0xFE, 0x05]);
    let pkt = parse_packet(&data).expect("the packet decodes");
    assert_eq!(pkt.pcr, Some(305));
}

#[test]
fn discontinuity_flag_is_bit_7_of_the_flags() {
    let mut data: Vec<u8> = PKT_TINY_AF.to_vec();
    data[5] = 0x80;
    let pkt = parse_packet(&data).expect("the packet decodes");
    assert!(pkt.discontinuity);
    assert!(!pkt.random_access);
    assert!(pkt.pcr.is_none());
}

#[test]
fn adaptation_field_that_fills_the_packet_without_payload() {
    let pkt = parse_packet(PKT_NO_PAYLOAD).expect("the packet decodes");
    assert_eq!(pkt.payload.len(), 0);
    assert_eq!(pkt.pcr, Some(2236884504900));
}

#[test]
fn adaptation_field_that_fills_the_packet_with_payload() {
    let mut data: Vec<u8> = PKT_NO_PAYLOAD.to_vec();
    data[3] = 0x30;
    assert!(parse_packet(&data).is_none());
}

#[test]
fn neither_adaptation_field_nor_payload() {
    let mut data: Vec<u8> = PKT_AF_PCR.to_vec();
    data[3] = 0x07;
    let pkt = parse_packet(&data).expect("the packet decodes");
    assert_eq!(pkt.payload.len(), 0);
    assert!(pkt.pcr.is_none());
    assert!(!pkt.discontinuity);
    assert!(!pkt.random_access);
    assert_eq!(pkt.continuity_counter, 7);
}

#[test]
fn packet_position_counts_consumed_bytes() {
    let mut ctx = Context::new();
    let mut parser = TsParser::new();
    let data = repeat(&[&[0x1b, 0x47, 0xaa, 0x00], PKT_AF_PCR, PKT_AF_PCR, PKT_AF_PCR]);
    let mut positions: Vec<i64> = Vec::new();
    let mut ready = parser.parse(&mut ctx, &data);
    while ready {
        positions.push(parser.packet().expect("a packet is ready").pos);
        ready = parser.next_packet(&mut ctx);
    }
    assert_eq!(positions, vec![4, 192, 380]);
    assert!(parser.packet().is_none());
}

#[test]
fn packets_split_over_pushes() {
    let mut ctx = Context::new();
    let mut parser = TsParser::new();
    let data = repeat(&[PKT_AF_PCR, PKT_NO_AF]);
    let mut delivered = 0;
    for part in data.chunks(100) {
        let mut ready = parser.parse(&mut ctx, part);
        while ready {
            delivered += 1;
            ready = parser.next_packet(&mut ctx);
        }
    }
    assert_eq!(delivered, 2);
    assert_eq!(ctx.stats.unsynchronized_bytes, 0);
    assert_eq!(ctx.stats.malformed_ts_packets, 0);
}

#[test]
fn garbage_without_sync_byte_is_dropped() {
    let mut ctx = Context::new();
    let mut parser = TsParser::new();
    let data = vec![0u8; 200];
    assert!(!parser.parse(&mut ctx, &data));
    assert_eq!(ctx.stats.unsynchronized_bytes, 200);
    assert_eq!(ctx.stats.malformed_ts_packets, 0);
    assert_eq!(parser.find_sync_word(), None);
}

#[test]
fn malformed_packets_may_outnumber_the_bytes_left() {
    // Every fourth byte is a sync byte, and each packet that starts there
    // announces an adaptation field of the wrong length.
    let mut data: Vec<u8> = Vec::new();
    for _ in 0..1000 {
        data.extend([0x47u8, 0x00, 0x00, 0x20]);
    }
    let mut ctx = Context::new();
    let delivered = run(&mut ctx, &data, |_| true);
    assert_eq!(delivered, 0);
    let left = 4000 - ctx.stats.unsynchronized_bytes;
    assert!(left < 188);
    assert!(ctx.stats.malformed_ts_packets > left);
    assert!(ctx.stats.malformed_ts_packets <= ctx.stats.unsynchronized_bytes);
}

#[test]
fn every_byte_is_accounted_for() {
    let data = repeat(&[
        &[0x00u8, 0x47, 0x00],
        PKT_AF_PCR,
        PKT_NO_AF,
        PKT_TINY_AF,
        PKT_ZERO_AF,
        &[0x47u8, 0x47],
        PKT_NO_PAYLOAD,
        PKT_AF_PCR,
        &PKT_AF_PCR[..100],
    ]);
    let mut ctx = Context::new();
    let mut parser = TsParser::new();
    let mut delivered: u64 = 0;
    let mut ready = parser.parse(&mut ctx, &data);
    while ready {
        delivered += 1;
        ready = parser.next_packet(&mut ctx);
    }
    assert_eq!(
        ctx.stats.unsynchronized_bytes + 188 * delivered + parser.pending() as u64,
        data.len() as u64
    );
    assert_eq!(parser.consumed() as u64 + parser.pending() as u64, data.len() as u64);
    assert!(ctx.stats.malformed_ts_packets <= ctx.stats.unsynchronized_bytes);
    assert!(parser.pending() < 188);
    assert!(
        ctx.stats.unsynchronized_bytes + 188 * delivered + ctx.stats.malformed_ts_packets
            <= data.len() as u64
    );
}
