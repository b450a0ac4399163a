use tsdemux::crc::mpeg2;

#[test]
fn crc_of_the_sample_section() {
    assert_eq!(
        mpeg2(&[0x02, 0xB0, 0x0B, 0x00, 0x01, 0x02, 0x03, 0x04, 0x05, 0x06]),
        0x251CD679
    );
}

#[test]
fn crc_of_nothing_is_the_initial_value() {
    assert_eq!(mpeg2(&[]), 0xFFFF_FFFF);
}

#[test]
fn crc_check_value() {
    assert_eq!(mpeg2(b"123456789"), 0x0376E6E7);
}

#[test]
fn crc_over_a_message_and_its_crc_is_zero() {
    let mut data: Vec<u8> = (0u8..200).collect();
    let crc = mpeg2(&data);
    data.extend(crc.to_be_bytes());
    assert_eq!(mpeg2(&data), 0);
    data[17] ^= 0x40;
    assert_ne!(mpeg2(&data), 0);
}
