//! ICMP echo request header and the fixed-layout view over the IPv4 header
//! that precedes a raw-socket reply.

use vstd::prelude::*;
use crate::bytes::{be16, be16_bytes, be32, read_be16, read_be32, push_be16};

verus! {

/// The echo-request message type: 8 for ICMP over IPv4, 128 for ICMPv6.
#[derive(Clone, Copy, Debug, PartialEq, Eq, Structural)]
pub enum IcmpType {
    V4,
    V6,
}

/// The wire code of an echo-request type.
pub open spec fn icmp_type_code(t: IcmpType) -> u8 {
    match t {
        IcmpType::V4 => 8,
        IcmpType::V6 => 128,
    }
}

impl IcmpType {
    pub fn to_u8(self) -> (r: u8)
        ensures
            r == icmp_type_code(self),
    {
        match self {
            IcmpType::V4 => 8,
            IcmpType::V6 => 128,
        }
    }
}

/// The 8-byte ICMP echo request header.
#[derive(Clone, Copy, Debug, PartialEq, Eq, Structural)]
pub struct IcmpEchoRequest {
    pub icmp_type: u8,
    pub icmp_code: u8,
    pub checksum: u16,
    pub identifier: u16,
    pub sequence_number: u16,
}

/// The 8 wire bytes of an echo request header, multi-byte fields big-endian.
pub open spec fn spec_icmp_header_bytes(h: IcmpEchoRequest) -> Seq<u8> {
    seq![h.icmp_type, h.icmp_code] + be16_bytes(h.checksum) + be16_bytes(h.identifier)
        + be16_bytes(h.sequence_number)
}

impl IcmpEchoRequest {
    /// A fresh echo request header: code 0, everything else zeroed, the
    /// checksum still to be computed over the whole packet.
    pub fn new(icmp_type: IcmpType) -> (r: IcmpEchoRequest)
        ensures
            r == (IcmpEchoRequest {
                icmp_type: icmp_type_code(icmp_type),
                icmp_code: 0,
                checksum: 0,
                identifier: 0,
                sequence_number: 0,
            }),
    {
        IcmpEchoRequest {
            icmp_type: icmp_type.to_u8(),
            icmp_code: 0,
            checksum: 0,
            identifier: 0,
            sequence_number: 0,
        }
    }

    pub fn to_bytes(&self) -> (r: Vec<u8>)
        ensures
            r@ == spec_icmp_header_bytes(*self),
    {
        let mut out: Vec<u8> = Vec::new();
        out.push(self.icmp_type);
        out.push(self.icmp_code);
        push_be16(&mut out, self.checksum);
        push_be16(&mut out, self.identifier);
        push_be16(&mut out, self.sequence_number);
        proof {
            assert(out@ =~= spec_icmp_header_bytes(*self));
        }
        out
    }
}

/// The fixed 20-byte IPv4 header that the kernel leaves in front of a raw
/// ICMP reply.
#[derive(Clone, Copy, Debug, PartialEq, Eq, Structural)]
pub struct Ipv4Packet {
    pub ver_len_tos: u16,
    pub total_len: u16,
    pub identification: u16,
    pub flags_frag_offset: u16,
    pub ttl: u8,
    pub protocol: u8,
    pub checksum: u16,
    pub source_address: u32,
    pub destination_address: u32,
}

/// The IPv4 header read from the first 20 bytes of a buffer; the TTL is
/// byte 8 and the protocol byte 9.
pub open spec fn spec_ipv4_header(b: Seq<u8>) -> Ipv4Packet {
    Ipv4Packet {
        ver_len_tos: be16(b[0], b[1]),
        total_len: be16(b[2], b[3]),
        identification: be16(b[4], b[5]),
        flags_frag_offset: be16(b[6], b[7]),
        ttl: b[8],
        protocol: b[9],
        checksum: be16(b[10], b[11]),
        source_address: be32(b[12], b[13], b[14], b[15]),
        destination_address: be32(b[16], b[17], b[18], b[19]),
    }
}

impl Ipv4Packet {
    /// The read-only view over the leading 20 bytes of a receive buffer;
    /// `None` when the buffer is shorter than an IPv4 header.
    pub fn from_bytes(buffer: &[u8]) -> (r: Option<Ipv4Packet>)
        ensures
            r is Some <==> buffer@.len() >= 20,
            r is Some ==> r->Some_0 == spec_ipv4_header(buffer@),
    {
        if buffer.len() < 20 {
            return None;
        }
        Some(
            Ipv4Packet {
                ver_len_tos: read_be16(buffer[0], buffer[1]),
                total_len: read_be16(buffer[2], buffer[3]),
                identification: read_be16(buffer[4], buffer[5]),
                flags_frag_offset: read_be16(buffer[6], buffer[7]),
                ttl: buffer[8],
                protocol: buffer[9],
                checksum: read_be16(buffer[10], buffer[11]),
                source_address: read_be32(buffer[12], buffer[13], buffer[14], buffer[15]),
                destination_address: read_be32(buffer[16], buffer[17], buffer[18], buffer[19]),
            },
        )
    }
}

} // verus!
