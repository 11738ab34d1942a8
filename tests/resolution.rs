use dns_resolver::error::DnsError;
use dns_resolver::packet::DnsPacket;
use dns_resolver::query_type::QueryType;
use dns_resolver::question::DnsQuestion;
use dns_resolver::record::{DnsRecord, Ipv4Address};
use dns_resolver::resolver::{query_packet, response_packet, Resolution, Step, MAX_ATTEMPTS, QUERY_ID};
use dns_resolver::result_code::ResultCode;

fn referral(to: Ipv4Address) -> DnsPacket {
    let mut p = DnsPacket::new();
    p.authority_section.push(DnsRecord::NS {
        domain: "com".to_string(),
        host: "ns2.test".to_string(),
        ttl: 10,
    });
    p.additional_section.push(DnsRecord::AAAA {
        domain: "ns2.test".to_string(),
        addr: dns_resolver::record::Ipv6Address(1, 2, 3, 4, 5, 6, 7, 8),
        ttl: 10,
    });
    p.additional_section.push(DnsRecord::A { domain: "ns2.test".to_string(), addr: to, ttl: 10 });
    p
}

fn answer() -> DnsPacket {
    let mut p = DnsPacket::new();
    p.answer_section.push(DnsRecord::A {
        domain: "example.com".to_string(),
        addr: Ipv4Address(93, 184, 216, 34),
        ttl: 100,
    });
    p
}

#[test]
fn referral_then_answer_takes_two_queries() {
    let first = Ipv4Address(198, 41, 0, 4);
    let second = Ipv4Address(192, 5, 6, 30);
    let mut state = Resolution::new(first);
    let mut queries: Vec<Ipv4Address> = Vec::new();
    let mut step = state.first_step();
    let mut answer_records = 0;
    loop {
        match step {
            Step::Query(server) => {
                queries.push(server);
                let response = if server == first { referral(second) } else { answer() };
                let outcome = Ok(response);
                step = state.on_response(&outcome);
                if step == Step::Answer {
                    answer_records = outcome.unwrap().answer_section.len();
                }
            }
            Step::Answer | Step::Failed => break,
        }
    }
    assert_eq!(step, Step::Answer);
    assert_eq!(queries, vec![first, second]);
    assert_eq!(answer_records, 1);
}

#[test]
fn no_glue_retries_then_fails() {
    let seed = Ipv4Address(1, 1, 1, 1);
    let mut state = Resolution::new(seed);
    let mut steps = 0;
    loop {
        let step = state.on_response(&Ok(DnsPacket::new()));
        steps += 1;
        match step {
            Step::Query(s) => assert_eq!(s, seed),
            Step::Failed => break,
            Step::Answer => panic!("no answer was given"),
        }
    }
    assert_eq!(steps, MAX_ATTEMPTS);
}

#[test]
fn transport_failure_retries_same_server() {
    let seed = Ipv4Address(9, 9, 9, 9);
    let mut state = Resolution::new(seed);
    assert_eq!(state.on_response(&Err(DnsError::TransportFailure)), Step::Query(seed));
    assert_eq!(state.attempts, 1);
}

#[test]
fn query_has_one_question_and_recursion_desired() {
    let q = query_packet(&"example.com".to_string(), QueryType::AAAA);
    assert_eq!(q.header.packet_identifier, QUERY_ID);
    assert!(q.header.recursion_desired);
    assert_eq!(q.question_section.len(), 1);
    assert_eq!(q.question_section[0].qname, "example.com");
    assert_eq!(q.question_section[0].qtype, QueryType::AAAA);
}

#[test]
fn responses_for_each_outcome() {
    let r = response_packet(7, None, None);
    assert_eq!(r.header.response_code, ResultCode::FORMERR);
    assert_eq!(r.header.packet_identifier, 7);
    assert!(r.header.query_response && r.header.recursion_available);
    let q = DnsQuestion::new("x.y".to_string(), QueryType::A);
    let r = response_packet(8, Some(q), None);
    assert_eq!(r.header.response_code, ResultCode::SERVFAIL);
    assert_eq!(r.question_section.len(), 1);
    let q = DnsQuestion::new("x.y".to_string(), QueryType::A);
    let mut res = answer();
    res.header.response_code = ResultCode::NOERROR;
    let r = response_packet(9, Some(q), Some(res));
    assert_eq!(r.header.response_code, ResultCode::NOERROR);
    assert_eq!(r.answer_section.len(), 1);
    assert_eq!(r.question_section[0].qname, "x.y");
}
