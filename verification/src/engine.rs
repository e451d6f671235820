//! The ping engine's decision logic: choosing how to resolve the
//! destination, picking an address out of a DNS answer, and the bounded
//! send/receive/report cycle, with the outside work (sockets, clocks,
//! sleeping) supplied by the caller as events.

use vstd::prelude::*;
use crate::addr::IpAddress;
use crate::dns::{Answer, AnswerValue, DnsAnswer, QueryType};
use crate::icmp::{IcmpType, icmp_type_code};
use crate::packet::{Packet, wrap_inc};

verus! {

/// How the destination is to be resolved.
#[derive(Clone, Copy, Debug, PartialEq, Eq)]
pub enum TargetPlan {
    /// The destination is already a literal address: no DNS step.
    UseAddress(IpAddress),
    /// Ask DNS with this query type.
    QueryDns(QueryType),
}

/// Why resolution failed fatally.
#[derive(Clone, Copy, Debug, PartialEq, Eq, Structural)]
pub enum ResolveError {
    /// The response carried no answer records.
    NoAnswers,
    /// The first answer was not an address record.
    NotAnAddress,
}

/// Chooses the resolution step. A literal address is used as it stands —
/// its own family wins silently, whatever the IPv6 flag says; otherwise DNS
/// is asked for an AAAA record when IPv6 is forced and an A record when not.
pub fn plan_resolution(literal: Option<IpAddress>, ipv6: bool) -> (r: TargetPlan)
    ensures
        match literal {
            Some(a) => r == TargetPlan::UseAddress(a),
            None => r == TargetPlan::QueryDns(
                if ipv6 {
                    QueryType::Aaaa
                } else {
                    QueryType::A
                },
            ),
        },
{
    match literal {
        Some(a) => TargetPlan::UseAddress(a),
        None => {
            if ipv6 {
                TargetPlan::QueryDns(QueryType::Aaaa)
            } else {
                TargetPlan::QueryDns(QueryType::A)
            }
        },
    }
}

/// Takes the target address out of a decoded answer list: the first
/// answer's address, an error when there is none or it is not an address.
pub fn pick_address(answers: &Vec<DnsAnswer>) -> (r: Result<IpAddress, ResolveError>)
    ensures
        answers@.len() == 0 ==> r == Err::<IpAddress, ResolveError>(ResolveError::NoAnswers),
        answers@.len() > 0 ==> match answers@[0]@.answer {
            AnswerValue::V4(b) => r is Ok && r->Ok_0 is V4 && r->Ok_0->V4_0@ == b,
            AnswerValue::V6(b) => r is Ok && r->Ok_0 is V6 && r->Ok_0->V6_0@ == b,
            AnswerValue::Name(_) => r == Err::<IpAddress, ResolveError>(ResolveError::NotAnAddress),
        },
{
    if answers.len() == 0 {
        return Err(ResolveError::NoAnswers);
    }
    match &answers[0].answer {
        Answer::Ipv4(a) => Ok(IpAddress::V4(*a)),
        Answer::Ipv6(a) => Ok(IpAddress::V6(*a)),
        Answer::Name(_) => Err(ResolveError::NotAnAddress),
    }
}

/// What one probe's outside work came to: a reply with its observed sizes
/// and timings, or a timeout or receive error.
#[derive(Clone, Copy, Debug, PartialEq, Eq)]
pub enum ProbeEvent {
    Reply { byte_count: usize, ttl: u8, rtt_micros: u64 },
    Failed,
}

/// The one record a probe emits.
#[derive(Clone, Copy, Debug, PartialEq, Eq)]
pub enum ProbeReport {
    Success { byte_count: usize, responder: IpAddress, sequence: u16, ttl: u8, rtt_micros: u64 },
    Failure { sequence: u16 },
}

/// A probe's report plus the sleep the caller owes before the next probe.
#[derive(Clone, Copy, Debug, PartialEq, Eq)]
pub struct ProbeStep {
    pub report: ProbeReport,
    pub sleep_micros: u64,
}

/// The probe loop's state: the one mutable packet, the bounded or unbounded
/// probe budget, and the fixed inter-probe interval.
#[derive(Debug)]
pub struct PingEngine {
    pub target: IpAddress,
    pub packet: Packet,
    pub count: Option<u16>,
    pub sent: u64,
    pub interval_micros: u64,
}

impl PingEngine {
    /// The packet's checksum invariant holds.
    pub open spec fn wf(&self) -> bool {
        self.packet.wf()
    }

    /// All requested probes have been performed; never true for an
    /// unbounded run.
    pub open spec fn done(&self) -> bool {
        match self.count {
            Some(c) => self.sent >= c as u64,
            None => false,
        }
    }

    /// A fresh engine: an ICMPv6 echo request for an IPv6 target, an ICMP
    /// one for IPv4, sequence number zero, no probes performed yet.
    pub fn new(target: IpAddress, count: Option<u16>, payload_len: u16, interval_micros: u64) -> (r:
        PingEngine)
        ensures
            r.target == target,
            r.count == count,
            r.sent == 0,
            r.interval_micros == interval_micros,
            r.packet.header.icmp_type == icmp_type_code(
                if target is V6 {
                    IcmpType::V6
                } else {
                    IcmpType::V4
                },
            ),
            r.packet.header.sequence_number == 0,
            r.packet.payload@.len() == payload_len as nat,
            r.wf(),
    {
        let icmp_type = match target {
            IpAddress::V6(_) => IcmpType::V6,
            IpAddress::V4(_) => IcmpType::V4,
        };
        let packet = Packet::new(icmp_type, payload_len);
        PingEngine { target, packet, count, sent: 0, interval_micros }
    }

    /// Whether the bounded probe budget is exhausted.
    pub fn is_done(&self) -> (r: bool)
        ensures
            r == self.done(),
    {
        match self.count {
            Some(c) => self.sent >= c as u64,
            None => false,
        }
    }

    /// The wire bytes of the next probe to send, or nothing once the
    /// bounded count of probes has been completed.
    pub fn next_probe(&self) -> (r: Option<Vec<u8>>)
        ensures
            r is Some <==> !self.done(),
            r is Some ==> r->Some_0@ == self.packet.spec_to_bytes(),
    {
        if self.is_done() {
            None
        } else {
            Some(self.packet.to_bytes())
        }
    }

    /// Books one probe's outcome: emits exactly one report — success for a
    /// reply, failure for a timeout or error — and always directs the
    /// caller to sleep the full configured interval; the sequence number
    /// advances by one either way and the checksum invariant is restored.
    pub fn record_outcome(&mut self, event: ProbeEvent) -> (r: ProbeStep)
        requires
            !old(self).done(),
            old(self).sent < u64::MAX,
        ensures
            final(self).sent == old(self).sent + 1,
            final(self).target == old(self).target,
            final(self).count == old(self).count,
            final(self).interval_micros == old(self).interval_micros,
            final(self).packet.header.sequence_number == wrap_inc(
                old(self).packet.header.sequence_number,
            ),
            final(self).packet.header.icmp_type == old(self).packet.header.icmp_type,
            final(self).packet.header.icmp_code == old(self).packet.header.icmp_code,
            final(self).packet.header.identifier == old(self).packet.header.identifier,
            final(self).packet.payload@ == old(self).packet.payload@,
            final(self).wf(),
            r.sleep_micros == old(self).interval_micros,
            match event {
                ProbeEvent::Reply { byte_count, ttl, rtt_micros } => r.report
                    == (ProbeReport::Success {
                    byte_count,
                    responder: old(self).target,
                    sequence: old(self).packet.header.sequence_number,
                    ttl,
                    rtt_micros,
                }),
                ProbeEvent::Failed => r.report == (ProbeReport::Failure {
                    sequence: old(self).packet.header.sequence_number,
                }),
            },
    {
        let report = match event {
            ProbeEvent::Reply { byte_count, ttl, rtt_micros } => ProbeReport::Success {
                byte_count,
                responder: self.target,
                sequence: self.packet.header.sequence_number,
                ttl,
                rtt_micros,
            },
            ProbeEvent::Failed => ProbeReport::Failure {
                sequence: self.packet.header.sequence_number,
            },
        };
        self.sent = self.sent + 1;
        self.packet.increment_sequence();
        ProbeStep { report, sleep_micros: self.interval_micros }
    }
}

} // verus!
