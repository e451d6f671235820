use rping::checksum;

#[test]
fn checksum_of_empty_buffer_is_all_ones() {
    assert_eq!(checksum(&[]), 0xFFFF);
}

#[test]
fn checksum_of_known_words() {
    // words 0x0001 and 0xf203 sum to 0xf204; the complement is 0x0dfb
    assert_eq!(checksum(&[0x00, 0x01, 0xf2, 0x03]), 0x0dfb);
}

#[test]
fn checksum_pads_odd_trailing_byte_with_zero() {
    // a lone 0x01 reads as the word 0x0100
    assert_eq!(checksum(&[0x01]), !0x0100u16);
}

#[test]
fn checksum_folds_carries_around() {
    // 0xffff + 0xffff = 0x1fffe, which folds to 0xffff; complement 0
    assert_eq!(checksum(&[0xff, 0xff, 0xff, 0xff]), 0x0000);
}

#[test]
fn checksum_is_self_verifying() {
    // fill the checksum field (bytes 2 and 3, zero here) with the computed
    // checksum; the checksum over the filled buffer must be zero
    let mut buf = vec![8u8, 0, 0, 0, 0, 1, 0, 1, 0xde, 0xad, 0xbe, 0xef];
    let c = checksum(&buf);
    buf[2] = (c >> 8) as u8;
    buf[3] = (c & 0xff) as u8;
    assert_eq!(checksum(&buf), 0);
}

#[test]
fn checksum_self_verifies_on_odd_length_too() {
    let mut buf = vec![8u8, 0, 0, 0, 0, 7, 0, 3, 0x55];
    let c = checksum(&buf);
    buf[2] = (c >> 8) as u8;
    buf[3] = (c & 0xff) as u8;
    assert_eq!(checksum(&buf), 0);
}
