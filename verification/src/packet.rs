//! The mutable ICMP echo packet a probe loop sends: a header, a random
//! payload fixed at construction, a checksum kept valid across every change,
//! and a wrapping sequence number.

use vstd::prelude::*;
use vstd::arithmetic::div_mod::{lemma_fundamental_div_mod, lemma_mod_division_less_than_divisor,
    lemma_mod_multiples_vanish, lemma_small_mod};
use crate::checksum::{checksum, checksum_spec, lemma_checksum_self_verifying};
use crate::icmp::{IcmpEchoRequest, IcmpType, icmp_type_code, spec_icmp_header_bytes};
use crate::rng::random_bytes;

verus! {

/// `h` with its checksum field replaced by `c`.
pub open spec fn with_checksum(h: IcmpEchoRequest, c: u16) -> IcmpEchoRequest {
    IcmpEchoRequest {
        icmp_type: h.icmp_type,
        icmp_code: h.icmp_code,
        checksum: c,
        identifier: h.identifier,
        sequence_number: h.sequence_number,
    }
}

/// A 16-bit sequence number incremented by one, wrapping on overflow.
pub open spec fn wrap_inc(s: u16) -> u16 {
    if s == 0xFFFF {
        0
    } else {
        (s + 1) as u16
    }
}

/// The sequence number after `n` increments from zero.
pub open spec fn iter_inc(n: nat) -> u16
    decreases n,
{
    if n == 0 {
        0
    } else {
        wrap_inc(iter_inc((n - 1) as nat))
    }
}

/// Incrementing the sequence number `n` times from zero leaves `n` modulo
/// 65536: `increment_sequence` advances the number by `wrap_inc`, and
/// `wrap_inc` applied `n` times to zero is `n % 0x10000`.
pub proof fn lemma_sequence_wraps(n: nat)
    ensures
        iter_inc(n) == n as int % 0x10000,
    decreases n,
{
    if n > 0 {
        lemma_sequence_wraps((n - 1) as nat);
        let m = (n - 1) as int % 0x10000;
        lemma_mod_division_less_than_divisor((n - 1) as int, 0x10000);
        lemma_fundamental_div_mod((n - 1) as int, 0x10000);
        assert(n as int == 0x10000 * ((n - 1) as int / 0x10000) + (m + 1));
        lemma_mod_multiples_vanish((n - 1) as int / 0x10000, m + 1, 0x10000);
        if m < 0xFFFF {
            lemma_small_mod((m + 1) as nat, 0x10000);
        }
    }
}

/// An ICMP echo request packet: header plus payload.
#[derive(Debug, PartialEq, Eq)]
pub struct Packet {
    pub header: IcmpEchoRequest,
    pub payload: Vec<u8>,
}

impl Packet {
    /// The packet's wire bytes: the header, then the payload.
    pub open spec fn spec_to_bytes(&self) -> Seq<u8> {
        spec_icmp_header_bytes(self.header) + self.payload@
    }

    /// The checksum invariant: the checksum field always holds the Internet
    /// checksum of the current packet bytes with the field itself zeroed.
    pub open spec fn wf(&self) -> bool {
        self.header.checksum == checksum_spec(
            spec_icmp_header_bytes(with_checksum(self.header, 0)) + self.payload@,
        )
    }

    /// A fresh echo request with a payload of `payload_len` random bytes,
    /// sequence number zero, and a valid checksum.
    pub fn new(icmp_type: IcmpType, payload_len: u16) -> (r: Packet)
        ensures
            r.header.icmp_type == icmp_type_code(icmp_type),
            r.header.icmp_code == 0,
            r.header.identifier == 0,
            r.header.sequence_number == 0,
            r.payload@.len() == payload_len as nat,
            r.wf(),
    {
        let payload = random_bytes(payload_len);
        let header = IcmpEchoRequest::new(icmp_type);
        let mut packet = Packet { header, payload };
        packet.calculate_checksum();
        packet
    }

    pub fn to_bytes(&self) -> (r: Vec<u8>)
        ensures
            r@ == self.spec_to_bytes(),
    {
        let mut out = self.header.to_bytes();
        let mut i: usize = 0;
        while i < self.payload.len()
            invariant
                i <= self.payload@.len(),
                out@ == spec_icmp_header_bytes(self.header) + self.payload@.take(i as int),
            decreases self.payload@.len() - i,
        {
            out.push(self.payload[i]);
            proof {
                assert(out@ =~= spec_icmp_header_bytes(self.header) + self.payload@.take(
                    i as int + 1,
                ));
            }
            i = i + 1;
        }
        proof {
            assert(out@ =~= self.spec_to_bytes());
        }
        out
    }

    /// Recomputes the checksum: the field is zeroed, the Internet checksum
    /// of the resulting bytes is computed and written back. Nothing else
    /// changes.
    pub fn calculate_checksum(&mut self)
        ensures
            final(self).header == with_checksum(old(self).header, final(self).header.checksum),
            final(self).payload@ == old(self).payload@,
            final(self).wf(),
    {
        self.header.checksum = 0;
        let bytes = self.to_bytes();
        let c = checksum(bytes.as_slice());
        self.header.checksum = c;
    }

    /// Advances the sequence number by one, wrapping on overflow, and
    /// recomputes the checksum so the invariant still holds.
    pub fn increment_sequence(&mut self)
        ensures
            final(self).header.sequence_number == wrap_inc(old(self).header.sequence_number),
            final(self).header.icmp_type == old(self).header.icmp_type,
            final(self).header.icmp_code == old(self).header.icmp_code,
            final(self).header.identifier == old(self).header.identifier,
            final(self).payload@ == old(self).payload@,
            final(self).wf(),
    {
        if self.header.sequence_number == 0xFFFF {
            self.header.sequence_number = 0;
        } else {
            self.header.sequence_number = self.header.sequence_number + 1;
        }
        self.calculate_checksum();
    }
}

/// A well-formed packet's bytes are self-verifying: the Internet checksum
/// over the full wire bytes, checksum field included, is zero.
pub proof fn lemma_packet_self_verifying(p: Packet)
    requires
        p.wf(),
    ensures
        checksum_spec(p.spec_to_bytes()) == 0,
{
    let b0 = spec_icmp_header_bytes(with_checksum(p.header, 0)) + p.payload@;
    let c = checksum_spec(b0);
    assert(b0[2] == 0 && b0[3] == 0);
    lemma_checksum_self_verifying(b0, 1);
    assert(b0.update(2, (c as int / 256) as u8).update(3, (c as int % 256) as u8)
        =~= p.spec_to_bytes());
}

} // verus!
