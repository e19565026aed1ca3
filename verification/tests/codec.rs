use dnswire::buffer::BytePacketBuffer;
use dnswire::error::DnsError;
use dnswire::header::{Header, ResCode};
use dnswire::packet::Packet;
use dnswire::query::Query;
use dnswire::question::Question;
use dnswire::record::{Ipv4, Ipv6, Record};

fn put(buf: &mut BytePacketBuffer, pos: usize, bytes: &[u8]) {
    for (i, b) in bytes.iter().enumerate() {
        buf.set(pos + i, *b).unwrap();
    }
}

#[test]
fn header_flags_byte_a_bit_exact() {
    let mut h = Header::new();
    h.recursion_desired = true;
    h.opcode = 0;
    h.response = false;
    let mut buf = BytePacketBuffer::new();
    h.write(&mut buf).unwrap();
    assert_eq!(buf.buf[2], 0x01);
    assert_eq!(buf.buf[3], 0x00);
}

#[test]
fn header_flags_byte_b_bit_exact() {
    let mut h = Header::new();
    h.recursion_available = true;
    let mut buf = BytePacketBuffer::new();
    h.write(&mut buf).unwrap();
    assert_eq!(buf.buf[2], 0x00);
    assert_eq!(buf.buf[3], 0x80);
}

#[test]
fn header_round_trip() {
    let mut h = Header::new();
    h.id = 0xBEEF;
    h.response = true;
    h.opcode = 5;
    h.authoritative_answer = true;
    h.truncated_message = false;
    h.recursion_desired = true;
    h.recursion_available = true;
    h.z = true;
    h.checking_disabled = true;
    h.authed_data = false;
    h.rescode = ResCode::NameError;
    h.questions = 2;
    h.answers = 7;
    h.authoritative_entries = 1;
    h.resource_entries = 3;
    let mut buf = BytePacketBuffer::new();
    h.write(&mut buf).unwrap();
    buf.seek(0);
    let mut h2 = Header::new();
    h2.read(&mut buf).unwrap();
    assert_eq!(h, h2);
}

#[test]
fn name_compression_decode() {
    let mut buf = BytePacketBuffer::new();
    put(&mut buf, 12, b"\x03www\x07example\x03com\x00");
    put(&mut buf, 30, b"\xC0\x0C");
    buf.seek(12);
    let mut name = String::new();
    buf.read_qname(&mut name).unwrap();
    assert_eq!(name, "www.example.com");
    assert_eq!(buf.pos, 29);
    buf.seek(30);
    let mut name2 = String::new();
    buf.read_qname(&mut name2).unwrap();
    assert_eq!(name2, "www.example.com");
    assert_eq!(buf.pos, 32);
}

#[test]
fn jump_limit_enforced() {
    let mut buf = BytePacketBuffer::new();
    // A pointer at offset 12 that points at itself loops forever unless the
    // decoder counts jumps.
    put(&mut buf, 12, b"\xC0\x0C");
    buf.seek(12);
    let mut name = String::new();
    assert_eq!(buf.read_qname(&mut name), Err(DnsError::MaxJumpsExceeded));
}

#[test]
fn label_too_long_on_encode() {
    let mut buf = BytePacketBuffer::new();
    let long = "a".repeat(64);
    assert_eq!(buf.write_qname(&long), Err(DnsError::LabelTooLong));
    // 63 bytes is the largest label that still encodes.
    let mut buf2 = BytePacketBuffer::new();
    let edge = "a".repeat(63);
    assert_eq!(buf2.write_qname(&edge), Ok(()));
}

#[test]
fn qname_exact_bytes() {
    let mut buf = BytePacketBuffer::new();
    buf.write_qname("abc.de").unwrap();
    assert_eq!(&buf.buf[0..8], b"\x03abc\x02de\x00");
    assert_eq!(buf.pos, 8);
}

#[test]
fn buffer_bounds_errors() {
    let mut buf = BytePacketBuffer::new();
    buf.seek(511);
    assert_eq!(buf.read_u16(), Err(DnsError::BufferBounds));
    buf.seek(512);
    assert_eq!(buf.read_u8(), Err(DnsError::BufferBounds));
    buf.seek(511);
    assert_eq!(buf.write_u16(7), Err(DnsError::BufferBounds));
    assert_eq!(buf.get(512), Err(DnsError::BufferBounds));
}

#[test]
fn a_record_round_trip() {
    let rec = Record::A {
        domain: "example.com".to_string(),
        addr: Ipv4(93, 184, 216, 34),
        ttl: 300,
    };
    let mut buf = BytePacketBuffer::new();
    rec.write(&mut buf).unwrap();
    buf.seek(0);
    let back = Record::read(&mut buf).unwrap();
    assert_eq!(back, rec);
}

#[test]
fn unknown_record_skips_payload_exactly() {
    let mut buf = BytePacketBuffer::new();
    // name "x", type 99, class 1, ttl 0x01020304, data_len 10, 10 payload bytes
    put(&mut buf, 0, b"\x01x\x00");
    put(&mut buf, 3, &[0, 99, 0, 1, 1, 2, 3, 4, 0, 10]);
    put(&mut buf, 13, &[9, 9, 9, 9, 9, 9, 9, 9, 9, 9]);
    let rec = Record::read(&mut buf).unwrap();
    assert_eq!(
        rec,
        Record::Unknown {
            domain: "x".to_string(),
            qtype: 99,
            data_len: 10,
            ttl: 0x01020304,
        }
    );
    // the name (3) plus the fixed fields (10) plus exactly data_len bytes
    assert_eq!(buf.pos, 3 + 10 + 10);
}

#[test]
fn mx_and_aaaa_round_trip() {
    let mx = Record::MX {
        domain: "example.com".to_string(),
        priority: 10,
        host: "mail.example.com".to_string(),
        ttl: 3600,
    };
    let aaaa = Record::AAAA {
        domain: "example.com".to_string(),
        addr: Ipv6(0x2606, 0x2800, 0x220, 0x1, 0x248, 0x1893, 0x25c8, 0x1946),
        ttl: 60,
    };
    let mut buf = BytePacketBuffer::new();
    mx.write(&mut buf).unwrap();
    aaaa.write(&mut buf).unwrap();
    buf.seek(0);
    assert_eq!(Record::read(&mut buf).unwrap(), mx);
    assert_eq!(Record::read(&mut buf).unwrap(), aaaa);
}

#[test]
fn packet_round_trip() {
    let mut p = Packet::new();
    p.header.id = 4711;
    p.header.recursion_desired = true;
    p.header.response = true;
    p.header.rescode = ResCode::NoError;
    p.questions.push(Question::new("www.example.com".to_string(), Query::A));
    p.answers.push(Record::A {
        domain: "www.example.com".to_string(),
        addr: Ipv4(93, 184, 216, 34),
        ttl: 300,
    });
    p.authorities.push(Record::NS {
        domain: "example.com".to_string(),
        host: "ns1.example.com".to_string(),
        ttl: 86400,
    });
    p.resources.push(Record::CNAME {
        domain: "alias.example.com".to_string(),
        host: "www.example.com".to_string(),
        ttl: 100,
    });
    let mut buf = BytePacketBuffer::new();
    p.write(&mut buf).unwrap();
    buf.seek(0);
    let q = Packet::from_buffer(&mut buf).unwrap();
    // write recomputed the counts on p, so the two are equal outright
    assert_eq!(q, p);
    assert_eq!(q.header.questions, 1);
    assert_eq!(q.header.answers, 1);
    assert_eq!(q.header.authoritative_entries, 1);
    assert_eq!(q.header.resource_entries, 1);
}

#[test]
fn ns_resolution_chain() {
    let mut p = Packet::new();
    p.authorities.push(Record::NS {
        domain: "example.com".to_string(),
        host: "ns1.example.com".to_string(),
        ttl: 86400,
    });
    p.resources.push(Record::A {
        domain: "ns1.example.com".to_string(),
        addr: Ipv4(1, 2, 3, 4),
        ttl: 300,
    });
    assert_eq!(p.get_resolved_ns("www.example.com"), Some(Ipv4(1, 2, 3, 4)));
    let ns = p.get_ns("www.example.com");
    assert_eq!(ns.len(), 1);
    assert_eq!(ns[0].0, "example.com");
    assert_eq!(ns[0].1, "ns1.example.com");

    // without the glue record the host name must be resolved separately
    p.resources.clear();
    assert_eq!(p.get_resolved_ns("www.example.com"), None);
    assert_eq!(
        p.get_unresolved_ns("www.example.com"),
        Some("ns1.example.com".to_string())
    );

    // a nameserver that is not authoritative for the queried name is skipped
    assert_eq!(p.get_unresolved_ns("www.elsewhere.org"), None);
}

#[test]
fn get_random_a_returns_first_match() {
    let mut p = Packet::new();
    p.answers.push(Record::CNAME {
        domain: "a".to_string(),
        host: "b".to_string(),
        ttl: 1,
    });
    p.answers.push(Record::A {
        domain: "b".to_string(),
        addr: Ipv4(10, 0, 0, 1),
        ttl: 1,
    });
    p.answers.push(Record::A {
        domain: "b".to_string(),
        addr: Ipv4(10, 0, 0, 2),
        ttl: 1,
    });
    assert_eq!(p.get_random_a(), Some(Ipv4(10, 0, 0, 1)));
    p.answers.remove(1);
    assert_eq!(p.get_random_a(), Some(Ipv4(10, 0, 0, 2)));
    p.answers.remove(1);
    assert_eq!(p.get_random_a(), None);
}

#[test]
fn query_type_codes() {
    assert_eq!(Query::A.to_num(), 1);
    assert_eq!(Query::NS.to_num(), 2);
    assert_eq!(Query::CNAME.to_num(), 5);
    assert_eq!(Query::MX.to_num(), 15);
    assert_eq!(Query::AAAA.to_num(), 28);
    assert_eq!(Query::UNKNOWN(99).to_num(), 99);
    assert_eq!(Query::from_num(1), Query::A);
    assert_eq!(Query::from_num(2), Query::NS);
    assert_eq!(Query::from_num(5), Query::CNAME);
    assert_eq!(Query::from_num(15), Query::MX);
    assert_eq!(Query::from_num(28), Query::AAAA);
    assert_eq!(Query::from_num(99), Query::UNKNOWN(99));
}

#[test]
fn rescode_from_num_degrades_gracefully() {
    assert_eq!(ResCode::from_num(0), ResCode::NoError);
    assert_eq!(ResCode::from_num(1), ResCode::FormatError);
    assert_eq!(ResCode::from_num(2), ResCode::ServerFailure);
    assert_eq!(ResCode::from_num(3), ResCode::NameError);
    assert_eq!(ResCode::from_num(4), ResCode::NotImplemented);
    assert_eq!(ResCode::from_num(5), ResCode::Refused);
    // reserved codes are normalized, not rejected
    assert_eq!(ResCode::from_num(12), ResCode::NoError);
}

#[test]
fn question_round_trip() {
    let q = Question::new("host.example.com".to_string(), Query::MX);
    let mut buf = BytePacketBuffer::new();
    q.write(&mut buf).unwrap();
    assert_eq!(buf.pos, 18 + 4);
    buf.seek(0);
    let mut back = Question::new(String::new(), Query::UNKNOWN(0));
    back.read(&mut buf).unwrap();
    assert_eq!(back, q);
    assert_eq!(buf.pos, 22);
}

#[test]
fn truncated_packet_is_rejected_whole() {
    let mut buf = BytePacketBuffer::new();
    // a header that promises one question, followed by a name of one-byte
    // labels that never terminates before the end of the buffer
    put(&mut buf, 0, &[0, 1, 0, 0, 0, 1, 0, 0, 0, 0, 0, 0]);
    for i in 12..512 {
        buf.set(i, 1).unwrap();
    }
    buf.seek(0);
    assert_eq!(Packet::from_buffer(&mut buf), Err(DnsError::BufferBounds));
}
