use rping::addr::{parse_ipv4_literal, IpAddress};
use rping::dns::{Answer, DnsAnswer, QueryClass, QueryType};
use rping::engine::{
    pick_address, plan_resolution, PingEngine, ProbeEvent, ProbeReport, ResolveError, TargetPlan,
};
use rping::resolver::nameservers;

#[test]
fn dotted_quad_literals_parse() {
    assert_eq!(
        parse_ipv4_literal(b"127.0.0.1"),
        Some(IpAddress::V4([127, 0, 0, 1]))
    );
    assert_eq!(
        parse_ipv4_literal(b"255.255.255.255"),
        Some(IpAddress::V4([255, 255, 255, 255]))
    );
    assert_eq!(parse_ipv4_literal(b"0.0.0.0"), Some(IpAddress::V4([0, 0, 0, 0])));
}

#[test]
fn bad_literals_do_not_parse() {
    assert_eq!(parse_ipv4_literal(b""), None);
    assert_eq!(parse_ipv4_literal(b"256.0.0.1"), None);
    assert_eq!(parse_ipv4_literal(b"1.2.3"), None);
    assert_eq!(parse_ipv4_literal(b"1.2.3.4.5"), None);
    assert_eq!(parse_ipv4_literal(b"01.2.3.4"), None);
    assert_eq!(parse_ipv4_literal(b"a.b.c.d"), None);
    assert_eq!(parse_ipv4_literal(b"1.2.3.4 "), None);
    assert_eq!(parse_ipv4_literal(b"1..3.4"), None);
    assert_eq!(parse_ipv4_literal(b"1234.5.6.7"), None);
}

#[test]
fn literal_destination_skips_dns_and_reaches_socket_creation() {
    // resolving the literal "127.0.0.1": no DNS step, the engine is built
    // with that address directly
    let lit = parse_ipv4_literal(b"127.0.0.1");
    assert_eq!(
        plan_resolution(lit, false),
        TargetPlan::UseAddress(IpAddress::V4([127, 0, 0, 1]))
    );
    let engine = PingEngine::new(IpAddress::V4([127, 0, 0, 1]), Some(1), 56, 1_000_000);
    let probe = engine.next_probe();
    assert!(probe.is_some());
    assert_eq!(probe.unwrap()[0], 8); // an ICMP (not ICMPv6) echo request
}

#[test]
fn literal_family_wins_silently_over_the_ipv6_flag() {
    let v4 = IpAddress::V4([127, 0, 0, 1]);
    assert_eq!(plan_resolution(Some(v4), true), TargetPlan::UseAddress(v4));
}

#[test]
fn without_literal_the_flag_picks_the_query_type() {
    assert_eq!(plan_resolution(None, false), TargetPlan::QueryDns(QueryType::A));
    assert_eq!(plan_resolution(None, true), TargetPlan::QueryDns(QueryType::Aaaa));
}

fn answer_of(answer: Answer) -> DnsAnswer {
    DnsAnswer {
        name: b"example.com".to_vec(),
        qtype: QueryType::A,
        qclass: QueryClass::In,
        ttl: 300,
        data_len: 4,
        answer,
    }
}

#[test]
fn pick_address_takes_the_first_answer() {
    let answers = vec![
        answer_of(Answer::Ipv4([93, 184, 216, 34])),
        answer_of(Answer::Ipv4([1, 1, 1, 1])),
    ];
    assert_eq!(pick_address(&answers), Ok(IpAddress::V4([93, 184, 216, 34])));
}

#[test]
fn pick_address_handles_ipv6_answers() {
    let bytes = [1u8, 2, 3, 4, 5, 6, 7, 8, 9, 10, 11, 12, 13, 14, 15, 16];
    let answers = vec![answer_of(Answer::Ipv6(bytes))];
    assert_eq!(pick_address(&answers), Ok(IpAddress::V6(bytes)));
}

#[test]
fn pick_address_with_no_answers_is_fatal() {
    assert_eq!(pick_address(&Vec::new()), Err(ResolveError::NoAnswers));
}

#[test]
fn pick_address_with_a_name_answer_is_fatal() {
    let answers = vec![answer_of(Answer::Name(b"cname.example.com".to_vec()))];
    assert_eq!(pick_address(&answers), Err(ResolveError::NotAnAddress));
}

#[test]
fn timed_out_probe_reports_one_failure_then_sleeps_and_increments() {
    let target = IpAddress::V4([127, 0, 0, 1]);
    let mut engine = PingEngine::new(target, Some(5), 16, 250_000);
    let step = engine.record_outcome(ProbeEvent::Failed);
    assert_eq!(step.report, ProbeReport::Failure { sequence: 0 });
    assert_eq!(step.sleep_micros, 250_000); // the full configured interval
    assert_eq!(engine.sent, 1);
    let next = engine.next_probe().unwrap();
    assert_eq!(&next[6..8], &[0, 1]); // the sequence number still advanced
}

#[test]
fn successful_probe_reports_the_reply_and_the_target() {
    let target = IpAddress::V6([0u8; 16]);
    let mut engine = PingEngine::new(target, None, 8, 1_000_000);
    let step = engine.record_outcome(ProbeEvent::Reply {
        byte_count: 84,
        ttl: 63,
        rtt_micros: 1234,
    });
    assert_eq!(
        step.report,
        ProbeReport::Success {
            byte_count: 84,
            responder: target,
            sequence: 0,
            ttl: 63,
            rtt_micros: 1234,
        }
    );
}

#[test]
fn bounded_engine_performs_exactly_three_cycles() {
    let target = IpAddress::V4([127, 0, 0, 1]);
    let mut engine = PingEngine::new(target, Some(3), 32, 10_000);
    let mut cycles = 0u32;
    loop {
        let probe = match engine.next_probe() {
            Some(p) => p,
            None => break,
        };
        assert_eq!(probe.len(), 8 + 32);
        // outcomes do not matter: a failure on the second probe changes
        // nothing about the cycle count
        let event = if cycles == 1 {
            ProbeEvent::Failed
        } else {
            ProbeEvent::Reply { byte_count: 40, ttl: 64, rtt_micros: 500 }
        };
        engine.record_outcome(event);
        cycles += 1;
        assert!(cycles <= 3);
    }
    assert_eq!(cycles, 3);
    assert!(engine.is_done());
    assert!(engine.next_probe().is_none());
}

#[test]
fn unbounded_engine_is_never_done() {
    let mut engine = PingEngine::new(IpAddress::V4([10, 0, 0, 1]), None, 0, 0);
    for _ in 0..100 {
        assert!(!engine.is_done());
        assert!(engine.next_probe().is_some());
        engine.record_outcome(ProbeEvent::Failed);
    }
    assert!(!engine.is_done());
}

#[test]
fn nameservers_takes_the_token_after_the_keyword_in_order() {
    let conf = b"# generated\nnameserver 8.8.8.8\nsearch lan\nnameserver 1.1.1.1\n";
    let got = nameservers(conf);
    assert_eq!(got, vec![b"8.8.8.8".to_vec(), b"1.1.1.1".to_vec()]);
}

#[test]
fn nameservers_strips_carriage_returns() {
    assert_eq!(nameservers(b"nameserver 9.9.9.9\r\n"), vec![b"9.9.9.9".to_vec()]);
}

#[test]
fn nameserver_line_without_a_token_contributes_nothing() {
    assert!(nameservers(b"nameserver\n").is_empty());
    assert!(nameservers(b"nameserver   \n").is_empty());
}

#[test]
fn nameservers_of_empty_content_is_empty() {
    assert!(nameservers(b"").is_empty());
}

#[test]
fn keyword_match_is_a_prefix_match() {
    // a line beginning with the keyword is taken even when more letters
    // follow it; the second whitespace token is the address
    assert_eq!(nameservers(b"nameservers 7.7.7.7\n"), vec![b"7.7.7.7".to_vec()]);
}
