use dns_core::{
    BytePacketBuffer, BytePacketError, DnsHeader, DnsPacket, DnsQuestion, DnsRecord, QueryType, ResultCode,
    PACKET_BUFFER_SIZE,
};

fn write_name(name: &str) -> BytePacketBuffer {
    let mut b = BytePacketBuffer::new();
    b.write_qname(name).unwrap();
    b
}

#[test]
fn read_u16_and_u32_are_big_endian() {
    let mut b = BytePacketBuffer::from_bytes(&[0x12, 0x34, 0xde, 0xad, 0xbe, 0xef]);
    assert_eq!(b.read_u16().unwrap(), 0x1234);
    assert_eq!(b.read_u32().unwrap(), 0xdeadbeef);
    assert_eq!(b.pos(), 6);
}

#[test]
fn reads_past_the_end_fail() {
    let mut b = BytePacketBuffer::new();
    b.seek(PACKET_BUFFER_SIZE - 1).unwrap();
    assert_eq!(b.read_u16(), Err(BytePacketError::EndOfBuffer));
    assert_eq!(b.pos(), PACKET_BUFFER_SIZE);
    assert_eq!(b.read(), Err(BytePacketError::EndOfBuffer));
    assert_eq!(b.get(PACKET_BUFFER_SIZE), Err(BytePacketError::EndOfBuffer));
    assert!(b.get_range(PACKET_BUFFER_SIZE - 2, 3).is_err());
    assert_eq!(b.get_range(PACKET_BUFFER_SIZE - 2, 2).unwrap().len(), 2);
}

#[test]
fn writes_past_the_end_fail() {
    let mut b = BytePacketBuffer::new();
    b.seek(PACKET_BUFFER_SIZE - 3).unwrap();
    assert_eq!(b.write_u32(0x01020304), Err(BytePacketError::EndOfBuffer));
    assert_eq!(b.buffer[PACKET_BUFFER_SIZE - 3], 1);
    assert_eq!(b.buffer[PACKET_BUFFER_SIZE - 1], 3);
    assert_eq!(b.pos(), PACKET_BUFFER_SIZE);
}

#[test]
fn set_u16_patches_and_checks_bounds() {
    let mut b = BytePacketBuffer::new();
    b.set_u16(10, 0xabcd).unwrap();
    assert_eq!(b.buffer[10], 0xab);
    assert_eq!(b.buffer[11], 0xcd);
    assert_eq!(b.pos(), 0);
    assert_eq!(b.set_u16(PACKET_BUFFER_SIZE - 1, 1), Err(BytePacketError::OutOfBounds));
}

#[test]
fn step_and_seek_move_the_cursor() {
    let mut b = BytePacketBuffer::new();
    b.step(7).unwrap();
    assert_eq!(b.pos(), 7);
    b.seek(2000).unwrap();
    assert_eq!(b.pos(), 2000);
}

#[test]
fn name_encoding_is_literal() {
    let b = write_name("www.example.com");
    let expected: Vec<u8> = [
        &[3u8][..], b"www", &[7u8][..], b"example", &[3u8][..], b"com", &[0u8][..],
    ]
    .concat();
    assert_eq!(b.written(), expected);
}

#[test]
fn name_round_trip_lowercases() {
    let mut b = write_name("WWW.Example.COM");
    b.seek(0).unwrap();
    let mut out = String::new();
    b.read_qname(&mut out).unwrap();
    assert_eq!(out, "www.example.com");
    assert_eq!(b.pos(), 17);
}

#[test]
fn long_label_is_rejected() {
    let label = "a".repeat(64);
    let mut b = BytePacketBuffer::new();
    assert_eq!(b.write_qname(&format!("{}.com", label)), Err(BytePacketError::LabelTooLong));
    assert_eq!(b.pos(), 0);
    let ok = "a".repeat(63);
    assert!(b.write_qname(&format!("{}.com", ok)).is_ok());
}

#[test]
fn name_that_does_not_fit_is_rejected() {
    let mut b = BytePacketBuffer::new();
    b.seek(PACKET_BUFFER_SIZE - 5).unwrap();
    assert_eq!(b.write_qname("example.com"), Err(BytePacketError::EndOfBuffer));
}

#[test]
fn compression_pointer_is_followed() {
    // "example.com" at 0, then "www" followed by a pointer to 0.
    let mut data = vec![7u8];
    data.extend_from_slice(b"example");
    data.push(3);
    data.extend_from_slice(b"com");
    data.push(0);
    data.push(3);
    data.extend_from_slice(b"www");
    data.extend_from_slice(&[0xc0, 0x00]);
    let mut b = BytePacketBuffer::from_bytes(&data);
    b.seek(13).unwrap();
    let mut out = String::new();
    b.read_qname(&mut out).unwrap();
    assert_eq!(out, "www.example.com");
    assert_eq!(b.pos(), 19);
}

#[test]
fn pointer_cycle_fails_with_max_jumps() {
    let mut b = BytePacketBuffer::from_bytes(&[0xc0, 0x00]);
    let mut out = String::new();
    assert_eq!(b.read_qname(&mut out), Err(BytePacketError::MaxJumpsExceeded));
    assert_eq!(out, "");
    assert_eq!(b.pos(), 0);
}

#[test]
fn five_jumps_pass_six_fail() {
    // Pointers at 0, 2, 4, ... each to the next; the name "a" at 20.
    let mut data = vec![0u8; 24];
    for k in 0..10 {
        data[2 * k] = 0xc0;
        data[2 * k + 1] = (2 * k + 2) as u8;
    }
    data[20] = 1;
    data[21] = b'a';
    data[22] = 0;
    let mut out = String::new();
    let mut b = BytePacketBuffer::from_bytes(&data);
    b.seek(10).unwrap();
    assert!(b.read_qname(&mut out).is_ok());
    assert_eq!(out, "a");
    assert_eq!(b.pos(), 12);
    let mut out2 = String::new();
    b.seek(8).unwrap();
    assert_eq!(b.read_qname(&mut out2), Err(BytePacketError::MaxJumpsExceeded));
}

#[test]
fn query_type_codes() {
    assert_eq!(QueryType::from(1), QueryType::A);
    assert_eq!(QueryType::from(2), QueryType::NS);
    assert_eq!(QueryType::from(5), QueryType::CNAME);
    assert_eq!(QueryType::from(15), QueryType::MX);
    assert_eq!(QueryType::from(28), QueryType::AAAA);
    assert_eq!(QueryType::from(99), QueryType::UNKNOWN(99));
    assert_eq!(QueryType::AAAA.to_u16(), 28);
    assert_eq!(QueryType::UNKNOWN(99).to_u16(), 99);
}

#[test]
fn result_codes_fold_unknown_to_no_error() {
    assert_eq!(ResultCode::from(3), ResultCode::NxDomain);
    assert_eq!(ResultCode::from(5), ResultCode::Refused);
    assert_eq!(ResultCode::from(9), ResultCode::NoError);
    assert_eq!(ResultCode::ServerFail.to_u8(), 2);
}

#[test]
fn header_round_trip() {
    let mut h = DnsHeader::new();
    h.id = 0xbeef;
    h.recursion_desired = true;
    h.opcode = 2;
    h.response = true;
    h.rescode = ResultCode::NxDomain;
    h.recursion_available = true;
    h.authed_data = true;
    h.questions = 1;
    h.answers = 2;
    h.authoritative_entries = 3;
    h.resource_entries = 4;
    let mut b = BytePacketBuffer::new();
    h.write(&mut b).unwrap();
    assert_eq!(&b.buffer[..4], &[0xbe, 0xef, 0x91, 0xa3]);
    b.seek(0).unwrap();
    let mut back = DnsHeader::new();
    back.read(&mut b).unwrap();
    assert_eq!(back, h);
}

#[test]
fn short_header_fails() {
    let mut b = BytePacketBuffer::new();
    b.seek(PACKET_BUFFER_SIZE - 4).unwrap();
    let mut h = DnsHeader::new();
    assert_eq!(h.read(&mut b), Err(BytePacketError::EndOfBuffer));
    assert_eq!(h, DnsHeader::new());
}

#[test]
fn question_round_trip() {
    let mut b = BytePacketBuffer::new();
    DnsQuestion::new(QueryType::MX, "Example.org".to_string()).write(&mut b).unwrap();
    b.seek(0).unwrap();
    let mut q = DnsQuestion::new(QueryType::UNKNOWN(0), String::new());
    q.read(&mut b).unwrap();
    assert_eq!(q, DnsQuestion::new(QueryType::MX, "example.org".to_string()));
}

fn round_trip(r: &DnsRecord) -> DnsRecord {
    let mut b = BytePacketBuffer::new();
    let n = r.write(&mut b).unwrap();
    assert_eq!(n, b.pos());
    b.seek(0).unwrap();
    let back = DnsRecord::read(&mut b).unwrap();
    assert_eq!(b.pos(), n);
    back
}

#[test]
fn record_round_trips() {
    let recs = vec![
        DnsRecord::A { address: [93, 184, 216, 34], domain: "example.com".into(), ttl: 3600 },
        DnsRecord::AAAA { address: [0x2001, 0xdb8, 0, 0, 0, 0, 0, 1], domain: "example.com".into(), ttl: 60 },
        DnsRecord::CNAME { domain: "www.example.com".into(), host: "example.com".into(), ttl: 5 },
        DnsRecord::NS { domain: "example.com".into(), host: "ns1.example.com".into(), ttl: 7 },
        DnsRecord::MX { priority: 10, domain: "example.com".into(), host: "mail.example.com".into(), ttl: 9 },
    ];
    for r in &recs {
        assert_eq!(&round_trip(r), r);
    }
}

#[test]
fn mx_data_is_priority_then_host_with_patched_length() {
    let r = DnsRecord::MX { priority: 10, domain: "a".into(), host: "b".into(), ttl: 1 };
    let mut b = BytePacketBuffer::new();
    r.write(&mut b).unwrap();
    // name (3) + type, class, ttl (8), then the data length.
    assert_eq!(&b.buffer[11..13], &[0, 5]);
    assert_eq!(&b.buffer[13..15], &[0, 10]);
    assert_eq!(&b.buffer[15..18], &[1, b'b', 0]);
}

#[test]
fn unknown_record_is_skipped_on_read_and_refused_on_write() {
    let mut data = vec![1u8, b'x', 0, 0, 99, 0, 1, 0, 0, 0, 30, 0, 3, 7, 7, 7, 0xaa];
    data.push(0);
    let mut b = BytePacketBuffer::from_bytes(&data);
    let r = DnsRecord::read(&mut b).unwrap();
    assert_eq!(r, DnsRecord::UNKNOWN { data_len: 3, domain: "x".into(), qtype: 99, ttl: 30 });
    assert_eq!(b.pos(), 16);
    let mut out = BytePacketBuffer::new();
    assert_eq!(r.write(&mut out), Err(BytePacketError::UnknownRecordError));
    assert_eq!(out.pos(), 0);
}

#[test]
fn invalid_type_for_named_data() {
    let mut b = BytePacketBuffer::new();
    assert_eq!(
        dns_core::make_mcn_record(QueryType::A, &mut b, "x".into(), 1),
        Err(BytePacketError::InvalidQueryType(1))
    );
}

fn sample_packet() -> DnsPacket {
    let mut p = DnsPacket::new();
    p.header.id = 4242;
    p.header.response = true;
    p.header.questions = 77;
    p.questions.push(DnsQuestion::new(QueryType::A, "example.com".into()));
    p.answers.push(DnsRecord::A { address: [1, 2, 3, 4], domain: "example.com".into(), ttl: 300 });
    p.authorities.push(DnsRecord::NS { domain: "example.com".into(), host: "ns.example.com".into(), ttl: 300 });
    p.resources.push(DnsRecord::A { address: [5, 6, 7, 8], domain: "ns.example.com".into(), ttl: 300 });
    p
}

#[test]
fn packet_round_trip_recomputes_counts() {
    let mut p = sample_packet();
    let bytes = dns_core::encode_packet(&mut p).unwrap();
    assert_eq!(p.header.questions, 1);
    let back = dns_core::decode_packet(&bytes).unwrap();
    assert_eq!(back.header.id, 4242);
    assert_eq!(back.header.questions, 1);
    assert_eq!(back.header.answers, 1);
    assert_eq!(back.header.authoritative_entries, 1);
    assert_eq!(back.header.resource_entries, 1);
    assert_eq!(back.questions, p.questions);
    assert_eq!(back.answers, p.answers);
    assert_eq!(back.authorities, p.authorities);
    assert_eq!(back.resources, p.resources);
}

#[test]
fn packet_lookups() {
    let p = sample_packet();
    assert_eq!(p.get_random_a(), Some([1, 2, 3, 4]));
    assert_eq!(p.get_ns("www.example.com"), vec![("example.com".to_string(), "ns.example.com".to_string())]);
    assert_eq!(p.get_resolved_ns("www.example.com"), Some([5, 6, 7, 8]));
    assert_eq!(p.get_unresolved_ns("www.example.com"), Some("ns.example.com".to_string()));
    assert_eq!(p.get_ns("example.org"), vec![]);
    assert_eq!(p.get_resolved_ns("example.org"), None);
}

#[test]
fn truncated_datagram_fails_to_decode() {
    let data = [0u8, 1, 0, 0, 0, 1];
    let mut b = BytePacketBuffer::from_bytes(&data);
    b.seek(PACKET_BUFFER_SIZE - 6).unwrap();
    assert!(DnsPacket::from_buffer(&mut b).is_err());
}

#[test]
fn labels_join_with_dots() {
    assert_eq!(dns_core::join_labels(&vec![]), "");
    assert_eq!(dns_core::join_labels(&vec!["www".to_string()]), "www");
    assert_eq!(
        dns_core::join_labels(&vec!["www".to_string(), "example".to_string(), "com".to_string()]),
        "www.example.com"
    );
}

#[test]
fn invalid_utf8_in_a_label_is_replaced() {
    let mut b = BytePacketBuffer::from_bytes(&[2, b'A', 0xff, 0]);
    let mut out = String::new();
    b.read_qname(&mut out).unwrap();
    assert_eq!(out, "a\u{fffd}");
}
