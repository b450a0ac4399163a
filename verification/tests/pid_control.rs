use tsdemux::context::Context;
use tsdemux::mp2t::pid_control::{Event, PidControl};
use tsdemux::mp2t::ts_parser::TsPacket;

static PKT_PAYLOAD: &'static [u8] = &[1, 2, 3];

fn pkt<'a>(continuity_counter: u8) -> TsPacket<'a> {
    TsPacket {
        continuity_counter,
        payload: PKT_PAYLOAD,
        ..Default::default()
    }
}

/// Checks the packets one by one and writes down what is handed on.
fn run(ctx: &mut Context, pid_control: &mut PidControl, pkts: &[TsPacket]) -> Vec<String> {
    let mut res = Vec::<String>::new();
    for p in pkts {
        for e in pid_control.parse_pkt(ctx, p) {
            match e {
                Event::TsPacket(&TsPacket {
                    continuity_counter, ..
                }) => res.push(format!("{}", continuity_counter)),
                Event::Reset => res.push("R".to_string()),
            }
        }
    }
    res
}

#[test]
fn pid_control_wrap() {
    let mut ctx = Context::new();
    let mut pid_control = PidControl::new();

    let res = run(&mut ctx, &mut pid_control, &[pkt(14), pkt(15), pkt(0), pkt(1)]);

    assert_eq!(res, vec!["14", "15", "0", "1"]);
    assert_eq!(ctx.stats.continuity_counter_errors, 0);
    assert_eq!(ctx.stats.duplicate_ts_packets, 0);
}

#[test]
fn dup() {
    let mut ctx = Context::new();
    let mut pid_control = PidControl::new();

    let res = run(
        &mut ctx,
        &mut pid_control,
        &[pkt(14), pkt(15), pkt(15), pkt(0), pkt(1)],
    );

    assert_eq!(res, vec!["14", "15", "0", "1"]);
    assert_eq!(ctx.stats.continuity_counter_errors, 0);
    assert_eq!(ctx.stats.duplicate_ts_packets, 1);
}

#[test]
fn discontinuity() {
    let mut ctx = Context::new();
    let mut pid_control = PidControl::new();

    let res = run(
        &mut ctx,
        &mut pid_control,
        &[pkt(5), pkt(6), pkt(3), pkt(4), pkt(5)],
    );

    assert_eq!(res, vec!["5", "6", "R", "3", "4", "5"]);
    assert_eq!(ctx.stats.continuity_counter_errors, 1);
    assert_eq!(ctx.stats.duplicate_ts_packets, 0);
}

#[test]
fn same_packet_twice_is_delivered_once() {
    let mut ctx = Context::new();
    let mut pid_control = PidControl::new();

    let res = run(&mut ctx, &mut pid_control, &[pkt(9), pkt(9)]);

    assert_eq!(res, vec!["9"]);
    assert_eq!(ctx.stats.duplicate_ts_packets, 1);
    assert_eq!(ctx.stats.continuity_counter_errors, 0);
}

#[test]
fn packets_without_payload_pass_through() {
    let mut ctx = Context::new();
    let mut pid_control = PidControl::new();
    let bare = |continuity_counter: u8| TsPacket {
        continuity_counter,
        ..Default::default()
    };

    // The packets without a payload do not move the counter: 4 follows 3.
    let res = run(
        &mut ctx,
        &mut pid_control,
        &[pkt(3), bare(3), bare(9), pkt(4)],
    );

    assert_eq!(res, vec!["3", "3", "9", "4"]);
    assert_eq!(ctx.stats.duplicate_ts_packets, 0);
    assert_eq!(ctx.stats.continuity_counter_errors, 0);
}
