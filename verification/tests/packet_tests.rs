use rping::checksum;
use rping::icmp::{IcmpEchoRequest, IcmpType, Ipv4Packet};
use rping::packet::Packet;

#[test]
fn echo_request_header_starts_zeroed() {
    let h = IcmpEchoRequest::new(IcmpType::V4);
    assert_eq!(h.icmp_type, 8);
    assert_eq!(h.icmp_code, 0);
    assert_eq!(h.checksum, 0);
    assert_eq!(h.identifier, 0);
    assert_eq!(h.sequence_number, 0);
    assert_eq!(IcmpEchoRequest::new(IcmpType::V6).icmp_type, 128);
}

#[test]
fn new_packet_has_requested_payload_and_valid_checksum() {
    let p = Packet::new(IcmpType::V4, 56);
    let bytes = p.to_bytes();
    assert_eq!(bytes.len(), 8 + 56);
    assert_eq!(bytes[0], 8);
    assert_eq!(bytes[1], 0);
    assert_eq!(&bytes[6..8], &[0, 0]); // sequence number starts at zero
    assert_eq!(checksum(&bytes), 0); // the filled checksum self-verifies
}

#[test]
fn new_ipv6_packet_uses_type_128() {
    let p = Packet::new(IcmpType::V6, 4);
    assert_eq!(p.to_bytes()[0], 128);
}

#[test]
fn empty_payload_packet_has_exact_checksum() {
    // header words: 0x0800, checksum, 0x0000, 0x0000; sum 0x0800, so the
    // checksum must be 0xF7FF
    let p = Packet::new(IcmpType::V4, 0);
    assert_eq!(p.to_bytes(), vec![8, 0, 0xF7, 0xFF, 0, 0, 0, 0]);
}

#[test]
fn increment_updates_sequence_and_recomputes_checksum() {
    let mut p = Packet::new(IcmpType::V4, 0);
    p.increment_sequence();
    // words now 0x0800, checksum, 0x0000, 0x0001: checksum 0xF7FE
    assert_eq!(p.to_bytes(), vec![8, 0, 0xF7, 0xFE, 0, 0, 0, 1]);
    p.increment_sequence();
    assert_eq!(p.to_bytes(), vec![8, 0, 0xF7, 0xFD, 0, 0, 0, 2]);
}

#[test]
fn n_increments_leave_n_mod_65536() {
    let mut p = Packet::new(IcmpType::V4, 12);
    for _ in 0..70000u32 {
        p.increment_sequence();
    }
    let bytes = p.to_bytes();
    let seq = ((bytes[6] as u32) << 8) | bytes[7] as u32;
    assert_eq!(seq, 70000 % 65536);
    assert_eq!(checksum(&bytes), 0); // the checksum still matches the bytes
}

#[test]
fn checksum_stays_valid_across_every_increment() {
    let mut p = Packet::new(IcmpType::V6, 9);
    for _ in 0..300 {
        p.increment_sequence();
        assert_eq!(checksum(&p.to_bytes()), 0);
    }
}

#[test]
fn ipv4_header_view_reads_ttl_at_byte_eight() {
    let buf: Vec<u8> = vec![
        0x45, 0x00, 0x00, 0x54, 0x12, 0x34, 0x40, 0x00, 64, 1, 0xAB, 0xCD, 192, 168, 1, 1, 8, 8,
        8, 8, 0xFF, 0xFF, // trailing payload bytes beyond the header
    ];
    let h = Ipv4Packet::from_bytes(&buf).unwrap();
    assert_eq!(h.ver_len_tos, 0x4500);
    assert_eq!(h.total_len, 0x0054);
    assert_eq!(h.identification, 0x1234);
    assert_eq!(h.flags_frag_offset, 0x4000);
    assert_eq!(h.ttl, 64);
    assert_eq!(h.protocol, 1);
    assert_eq!(h.checksum, 0xABCD);
    assert_eq!(h.source_address, 0xC0A80101);
    assert_eq!(h.destination_address, 0x08080808);
}

#[test]
fn ipv4_header_view_needs_twenty_bytes() {
    assert!(Ipv4Packet::from_bytes(&[0u8; 19]).is_none());
}
