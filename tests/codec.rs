use dns_resolver::error::DnsError;
use dns_resolver::header::DnsHeader;
use dns_resolver::name::decode_label;
use dns_resolver::packet::DnsPacket;
use dns_resolver::packet_buffer::PacketBuffer;
use dns_resolver::query_type::QueryType;
use dns_resolver::question::DnsQuestion;
use dns_resolver::record::{DnsRecord, Ipv4Address, Ipv6Address};
use dns_resolver::result_code::ResultCode;

fn buffer_with(bytes: &[u8]) -> PacketBuffer {
    PacketBuffer::from_datagram(bytes).unwrap()
}

#[test]
fn integers_round_trip_big_endian() {
    let mut b = PacketBuffer::new();
    b.write_u8(0x7f).unwrap();
    b.write_u16(0xABCD).unwrap();
    b.write_u32(0x0102_0304).unwrap();
    assert_eq!(b.get_pos(), 7);
    assert_eq!(b.get_range(0, 7).unwrap(), vec![0x7f, 0xAB, 0xCD, 0x01, 0x02, 0x03, 0x04]);
    b.set_pos(0);
    assert_eq!(b.read().unwrap(), 0x7f);
    assert_eq!(b.read_u16().unwrap(), 0xABCD);
    assert_eq!(b.read_u32().unwrap(), 0x0102_0304);
    assert_eq!(b.get_pos(), 7);
}

#[test]
fn read_past_end_is_overflow() {
    let mut b = PacketBuffer::new();
    b.set_pos(512);
    assert_eq!(b.read(), Err(DnsError::BufferOverflow));
    b.set_pos(511);
    assert_eq!(b.read_u16(), Err(DnsError::BufferOverflow));
    assert_eq!(b.get_pos(), 511);
    b.set_pos(509);
    assert_eq!(b.read_u32(), Err(DnsError::BufferOverflow));
}

#[test]
fn write_past_end_is_overflow() {
    let mut b = PacketBuffer::new();
    b.set_pos(511);
    assert_eq!(b.write_u16(1), Err(DnsError::BufferOverflow));
    assert_eq!(b.get_pos(), 511);
    b.write_u8(9).unwrap();
    assert_eq!(b.write_u8(9), Err(DnsError::BufferOverflow));
    assert_eq!(b.set_u16(511, 5), Err(DnsError::BufferOverflow));
    assert_eq!(b.set(512, 5), Err(DnsError::BufferOverflow));
}

#[test]
fn step_and_range_bounds() {
    let mut b = PacketBuffer::new();
    b.step_pos(500).unwrap();
    assert_eq!(b.get_pos(), 500);
    assert_eq!(b.step_pos(13), Err(DnsError::BufferOverflow));
    assert_eq!(b.get_pos(), 500);
    assert_eq!(b.get_range(510, 3), Err(DnsError::BufferOverflow));
    assert_eq!(PacketBuffer::from_datagram(&[0u8; 513]).err(), Some(DnsError::BufferOverflow));
}

#[test]
fn set_u16_overwrites_without_moving() {
    let mut b = PacketBuffer::new();
    b.write_u32(0).unwrap();
    b.set_u16(1, 0x1234).unwrap();
    assert_eq!(b.get_pos(), 4);
    assert_eq!(b.get_range(0, 4).unwrap(), vec![0, 0x12, 0x34, 0]);
}

#[test]
fn name_round_trip() {
    let mut b = PacketBuffer::new();
    b.write_qname("www.example.com").unwrap();
    assert_eq!(b.get_pos(), 17);
    assert_eq!(
        b.get_range(0, 17).unwrap(),
        vec![3, b'w', b'w', b'w', 7, b'e', b'x', b'a', b'm', b'p', b'l', b'e', 3, b'c', b'o', b'm', 0]
    );
    b.set_pos(0);
    assert_eq!(b.get_qname().unwrap(), "www.example.com");
    assert_eq!(b.get_pos(), 17);
}

#[test]
fn empty_name_is_one_zero_byte() {
    let mut b = PacketBuffer::new();
    b.write_qname("").unwrap();
    assert_eq!(b.get_pos(), 1);
    b.set_pos(0);
    assert_eq!(b.get_qname().unwrap(), "");
    assert_eq!(b.get_pos(), 1);
}

#[test]
fn name_is_lowercased_on_read() {
    let mut b = PacketBuffer::new();
    b.write_qname("WWW.Example.COM").unwrap();
    b.set_pos(0);
    assert_eq!(b.get_qname().unwrap(), "www.example.com");
}

#[test]
fn label_with_invalid_utf8_is_replaced() {
    assert_eq!(decode_label(&[0x41, 0xff]), "a\u{FFFD}");
}

#[test]
fn pointer_reads_earlier_name() {
    let mut b = PacketBuffer::new();
    b.write_qname("example.com").unwrap();
    assert_eq!(b.get_pos(), 13);
    b.write_u8(3).unwrap();
    b.write_u8(b'w').unwrap();
    b.write_u8(b'w').unwrap();
    b.write_u8(b'w').unwrap();
    b.write_u8(0xC0).unwrap();
    b.write_u8(0x00).unwrap();
    b.write_u8(0xC0).unwrap();
    b.write_u8(0x00).unwrap();
    b.set_pos(0);
    let plain = b.get_qname().unwrap();
    b.set_pos(19);
    let via_pointer = b.get_qname().unwrap();
    assert_eq!(via_pointer, plain);
    assert_eq!(b.get_pos(), 21);
    b.set_pos(13);
    assert_eq!(b.get_qname().unwrap(), "www.example.com");
    assert_eq!(b.get_pos(), 19);
}

#[test]
fn pointer_loop_is_malformed() {
    let mut b = buffer_with(&[0xC0, 0x00]);
    assert_eq!(b.get_qname(), Err(DnsError::MalformedName));
}

#[test]
fn six_pointer_chain_is_malformed() {
    let bytes = [0xC0, 2, 0xC0, 4, 0xC0, 6, 0xC0, 8, 0xC0, 10, 0xC0, 12, 1, b'a', 0];
    let mut b = buffer_with(&bytes);
    assert_eq!(b.get_qname(), Err(DnsError::MalformedName));
    let mut b = buffer_with(&bytes);
    b.set_pos(2);
    assert_eq!(b.get_qname().unwrap(), "a");
    assert_eq!(b.get_pos(), 4);
}

#[test]
fn name_running_off_the_end_is_overflow() {
    let mut b = PacketBuffer::new();
    b.set_pos(510);
    b.write_u8(5).unwrap();
    b.set_pos(510);
    assert_eq!(b.get_qname(), Err(DnsError::BufferOverflow));
}

#[test]
fn bad_labels_are_rejected() {
    let mut b = PacketBuffer::new();
    assert_eq!(b.write_qname("a..b"), Err(DnsError::MalformedName));
    assert_eq!(b.write_qname("example.com."), Err(DnsError::MalformedName));
    let long = "x".repeat(64);
    assert_eq!(b.write_qname(&long), Err(DnsError::MalformedName));
    assert_eq!(b.get_pos(), 0);
    let ok = "x".repeat(63);
    b.write_qname(&ok).unwrap();
    assert_eq!(b.get_pos(), 65);
}

#[test]
fn name_that_does_not_fit_is_overflow() {
    let mut b = PacketBuffer::new();
    b.set_pos(500);
    assert_eq!(b.write_qname("abcdefgh.abc"), Err(DnsError::BufferOverflow));
    assert_eq!(b.get_pos(), 500);
}

fn header_with(bits: u8, rcode: u8) -> DnsHeader {
    let mut h = DnsHeader::new();
    h.packet_identifier = 0xBEEF;
    h.query_response = bits & 1 != 0;
    h.authoritative_answer = bits & 2 != 0;
    h.truncated_message = bits & 4 != 0;
    h.recursion_desired = bits & 8 != 0;
    h.recursion_available = bits & 16 != 0;
    h.authed_data = bits & 32 != 0;
    h.checking_disabled = bits & 64 != 0;
    h.response_code = ResultCode::from_num(rcode);
    h.operation_code = 2;
    h.question_count = 1;
    h.answer_count = 2;
    h.authority_count = 3;
    h.additional_count = 4;
    h
}

#[test]
fn header_flags_round_trip() {
    for bits in 0u8..128 {
        for rcode in 0u8..=5 {
            let h = header_with(bits, rcode);
            let mut b = PacketBuffer::new();
            h.write(&mut b).unwrap();
            assert_eq!(b.get_pos(), 12);
            b.set_pos(0);
            let mut back = DnsHeader::new();
            back.read(&mut b).unwrap();
            assert_eq!(back, h);
        }
    }
}

#[test]
fn header_bit_layout() {
    let mut h = DnsHeader::new();
    h.packet_identifier = 6666;
    h.query_response = true;
    h.operation_code = 1;
    h.recursion_desired = true;
    h.recursion_available = true;
    h.response_code = ResultCode::NXDOMAIN;
    let mut b = PacketBuffer::new();
    h.write(&mut b).unwrap();
    assert_eq!(b.get_range(0, 4).unwrap(), vec![0x1A, 0x0A, 0x89, 0x83]);
}

#[test]
fn header_read_past_end_is_overflow() {
    let mut b = PacketBuffer::new();
    b.set_pos(501);
    let mut h = DnsHeader::new();
    assert_eq!(h.read(&mut b), Err(DnsError::BufferOverflow));
    assert_eq!(h.write(&mut b), Err(DnsError::BufferOverflow));
}

#[test]
fn codes_map_both_ways() {
    assert_eq!(QueryType::from_num(1), QueryType::A);
    assert_eq!(QueryType::from_num(2), QueryType::NS);
    assert_eq!(QueryType::from_num(5), QueryType::CNAME);
    assert_eq!(QueryType::from_num(15), QueryType::MX);
    assert_eq!(QueryType::from_num(28), QueryType::AAAA);
    assert_eq!(QueryType::from_num(99), QueryType::UNKNOWN(99));
    assert_eq!(QueryType::MX.to_num(), 15);
    assert_eq!(QueryType::UNKNOWN(77).to_num(), 77);
    assert_eq!(ResultCode::from_num(3), ResultCode::NXDOMAIN);
    assert_eq!(ResultCode::from_num(9), ResultCode::UNKNOWN(9));
    assert_eq!(ResultCode::REFUSED.to_num(), 5);
}

#[test]
fn question_round_trip() {
    let q = DnsQuestion::new("Mail.Example.org".to_string(), QueryType::MX);
    let mut b = PacketBuffer::new();
    q.write(&mut b).unwrap();
    assert_eq!(b.get_pos(), 18 + 4);
    b.set_pos(0);
    let mut back = DnsQuestion::new(String::new(), QueryType::UNKNOWN(0));
    back.read(&mut b).unwrap();
    assert_eq!(back.qname, "mail.example.org");
    assert_eq!(back.qtype, QueryType::MX);
}

fn write_then_read(r: &DnsRecord) -> (DnsRecord, usize) {
    let mut b = PacketBuffer::new();
    r.write(&mut b).unwrap();
    let written = b.get_pos();
    b.set_pos(0);
    let back = DnsRecord::read(&mut b).unwrap();
    assert_eq!(b.get_pos(), written);
    (back, written)
}

#[test]
fn a_record_round_trip() {
    let r = DnsRecord::A { domain: "a.b".to_string(), addr: Ipv4Address(192, 0, 2, 7), ttl: 3600 };
    let (back, n) = write_then_read(&r);
    assert_eq!(n, 5 + 10 + 4);
    match back {
        DnsRecord::A { domain, addr, ttl } => {
            assert_eq!(domain, "a.b");
            assert_eq!(addr, Ipv4Address(192, 0, 2, 7));
            assert_eq!(ttl, 3600);
        }
        _ => panic!("wrong variant"),
    }
}

#[test]
fn aaaa_record_round_trip() {
    let addr = Ipv6Address(0x2001, 0xdb8, 0, 0, 0, 0, 0, 1);
    let r = DnsRecord::AAAA { domain: "v6.example".to_string(), addr, ttl: 60 };
    let (back, n) = write_then_read(&r);
    assert_eq!(n, 12 + 10 + 16);
    match back {
        DnsRecord::AAAA { domain, addr: a, ttl } => {
            assert_eq!(domain, "v6.example");
            assert_eq!(a, addr);
            assert_eq!(ttl, 60);
        }
        _ => panic!("wrong variant"),
    }
}

#[test]
fn ns_cname_mx_round_trip() {
    let ns = DnsRecord::NS { domain: "example.com".to_string(), host: "ns1.example.com".to_string(), ttl: 1 };
    match write_then_read(&ns).0 {
        DnsRecord::NS { domain, host, ttl } => {
            assert_eq!((domain.as_str(), host.as_str(), ttl), ("example.com", "ns1.example.com", 1));
        }
        _ => panic!("wrong variant"),
    }
    let cname = DnsRecord::CNAME { domain: "www.x".to_string(), host: "x".to_string(), ttl: 2 };
    match write_then_read(&cname).0 {
        DnsRecord::CNAME { domain, host, ttl } => {
            assert_eq!((domain.as_str(), host.as_str(), ttl), ("www.x", "x", 2));
        }
        _ => panic!("wrong variant"),
    }
    let mx = DnsRecord::MX { domain: "x.org".to_string(), priority: 10, host: "mail.x.org".to_string(), ttl: 3 };
    match write_then_read(&mx).0 {
        DnsRecord::MX { domain, priority, host, ttl } => {
            assert_eq!((domain.as_str(), priority, host.as_str(), ttl), ("x.org", 10, "mail.x.org", 3));
        }
        _ => panic!("wrong variant"),
    }
}

fn rdlength_matches(r: &DnsRecord, domain_len: usize) {
    let mut b = PacketBuffer::new();
    r.write(&mut b).unwrap();
    let end = b.get_pos();
    let len_at = domain_len + 8;
    b.set_pos(len_at);
    let rdlength = b.read_u16().unwrap() as usize;
    assert_eq!(rdlength, end - (len_at + 2));
}

#[test]
fn rdlength_is_backpatched() {
    let ten = "a.b.c.d.e.f.g.h.i.j.k";
    for host in ["one", "two.labels", ten] {
        let ns = DnsRecord::NS { domain: "z".to_string(), host: host.to_string(), ttl: 0 };
        rdlength_matches(&ns, 3);
        let cname = DnsRecord::CNAME { domain: "z".to_string(), host: host.to_string(), ttl: 0 };
        rdlength_matches(&cname, 3);
        let mx = DnsRecord::MX { domain: "z".to_string(), priority: 5, host: host.to_string(), ttl: 0 };
        rdlength_matches(&mx, 3);
    }
    let mut b = PacketBuffer::new();
    DnsRecord::NS { domain: "z".to_string(), host: ten.to_string(), ttl: 0 }.write(&mut b).unwrap();
    b.set_pos(11);
    assert_eq!(b.read_u16().unwrap(), 23);
}

#[test]
fn unknown_record_is_skipped_and_not_written() {
    let bytes = [1, b'q', 0, 0, 99, 0, 1, 0, 0, 0, 7, 0, 3, 0xAA, 0xBB, 0xCC, 0x42];
    let mut b = buffer_with(&bytes);
    let r = DnsRecord::read(&mut b).unwrap();
    assert_eq!(b.get_pos(), 16);
    match &r {
        DnsRecord::UNKNOWN { domain, qtype, ttl, len } => {
            assert_eq!((domain.as_str(), *qtype, *ttl, *len), ("q", 99, 7, 3));
        }
        _ => panic!("wrong variant"),
    }
    let mut out = PacketBuffer::new();
    r.write(&mut out).unwrap();
    assert_eq!(out.get_pos(), 0);
}

#[test]
fn record_with_bad_name_is_rejected() {
    let mut b = PacketBuffer::new();
    let r = DnsRecord::NS { domain: "ok".to_string(), host: "bad..host".to_string(), ttl: 0 };
    assert_eq!(r.write(&mut b), Err(DnsError::MalformedName));
    assert_eq!(b.get_pos(), 0);
}

#[test]
fn end_to_end_single_question() {
    let mut packet = DnsPacket::new();
    packet.header.packet_identifier = 6666;
    packet.header.recursion_desired = true;
    packet.question_section.push(DnsQuestion::new("example.com".to_string(), QueryType::A));
    let mut b = PacketBuffer::new();
    packet.write_packet_to_buffer(&mut b).unwrap();
    b.set_pos(0);
    let back = DnsPacket::get_packet_from_buffer(&mut b).unwrap();
    assert_eq!(back.header.packet_identifier, 6666);
    assert!(back.header.recursion_desired);
    assert_eq!(back.header.question_count, 1);
    assert_eq!(back.question_section.len(), 1);
    assert_eq!(back.question_section[0].qname, "example.com");
    assert_eq!(back.question_section[0].qtype, QueryType::A);
}

#[test]
fn full_message_round_trip() {
    let mut packet = DnsPacket::new();
    packet.header.packet_identifier = 42;
    packet.header.query_response = true;
    packet.header.authoritative_answer = true;
    packet.header.response_code = ResultCode::NXDOMAIN;
    packet.header.answer_count = 99;
    packet.question_section.push(DnsQuestion::new("example.com".to_string(), QueryType::NS));
    packet.answer_section.push(DnsRecord::NS {
        domain: "example.com".to_string(),
        host: "ns.example.com".to_string(),
        ttl: 300,
    });
    packet.authority_section.push(DnsRecord::MX {
        domain: "example.com".to_string(),
        priority: 1,
        host: "mx.example.com".to_string(),
        ttl: 30,
    });
    packet.additional_section.push(DnsRecord::A {
        domain: "ns.example.com".to_string(),
        addr: Ipv4Address(10, 0, 0, 1),
        ttl: 5,
    });
    let mut b = PacketBuffer::new();
    packet.write_packet_to_buffer(&mut b).unwrap();
    assert_eq!(packet.header.answer_count, 1);
    let written = b.get_pos();
    b.set_pos(0);
    let back = DnsPacket::get_packet_from_buffer(&mut b).unwrap();
    assert_eq!(b.get_pos(), written);
    assert_eq!(back.header, packet.header);
    assert_eq!(back.answer_section.len(), 1);
    assert_eq!(back.authority_section.len(), 1);
    assert_eq!(back.additional_section.len(), 1);
    match &back.additional_section[0] {
        DnsRecord::A { domain, addr, ttl } => {
            assert_eq!((domain.as_str(), *addr, *ttl), ("ns.example.com", Ipv4Address(10, 0, 0, 1), 5));
        }
        _ => panic!("wrong variant"),
    }
}

#[test]
fn message_that_does_not_fit_writes_nothing() {
    let mut packet = DnsPacket::new();
    for _ in 0..40 {
        packet.question_section.push(DnsQuestion::new("abcdefghij.example".to_string(), QueryType::A));
    }
    let mut b = PacketBuffer::new();
    assert_eq!(packet.write_packet_to_buffer(&mut b), Err(DnsError::BufferOverflow));
    assert_eq!(b.get_pos(), 0);
    assert_eq!(b.get_range(0, 12).unwrap(), vec![0u8; 12]);
}

#[test]
fn message_with_bad_name_is_rejected() {
    let mut packet = DnsPacket::new();
    packet.question_section.push(DnsQuestion::new(".".to_string(), QueryType::A));
    let mut b = PacketBuffer::new();
    assert_eq!(packet.write_packet_to_buffer(&mut b), Err(DnsError::MalformedName));
    assert_eq!(b.get_pos(), 0);
}

#[test]
fn truncated_message_is_overflow() {
    let mut b = PacketBuffer::new();
    let mut h = DnsHeader::new();
    h.answer_count = 60;
    h.write(&mut b).unwrap();
    b.set_pos(0);
    assert_eq!(DnsPacket::get_packet_from_buffer(&mut b).err(), Some(DnsError::BufferOverflow));
}
