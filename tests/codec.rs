use dns_codec::dnsmsg::DnsPackets;
use dns_codec::header::{DnsHeader, ResultCode};
use dns_codec::packet::{BytePacketBuffer, PacketError};
use dns_codec::question::{DnsQuestion, QueryType};
use dns_codec::record::DnsRecord;

fn buffer_with(bytes: &[u8]) -> BytePacketBuffer {
    let mut b = BytePacketBuffer::new();
    for (i, v) in bytes.iter().enumerate() {
        b.set(i, *v);
    }
    b
}

#[test]
fn new_buffer_is_zeroed() {
    let b = BytePacketBuffer::new();
    assert_eq!(b.pos(), 0);
    assert!(b.buff.iter().all(|v| *v == 0));
}

#[test]
fn read_at_end_fails_with_bounds() {
    let mut b = BytePacketBuffer::new();
    b.seek(512);
    assert_eq!(b.read(), Err(PacketError::BufferBounds));
    assert_eq!(b.write(1), Err(PacketError::BufferBounds));
    assert_eq!(b.get(512), Err(PacketError::BufferBounds));
    b.seek(511);
    assert_eq!(b.read(), Ok(0));
    assert_eq!(b.pos(), 512);
}

#[test]
fn range_must_end_before_last_byte() {
    let mut b = BytePacketBuffer::new();
    b.set(500, 7);
    assert_eq!(b.get_range(500, 12), Err(PacketError::BufferBounds));
    assert_eq!(b.get_range(500, 11).unwrap()[0], 7);
    assert_eq!(b.get_range(500, 11).unwrap().len(), 11);
}

#[test]
fn u16_and_u32_are_big_endian() {
    let mut b = BytePacketBuffer::new();
    b.write_u16(0x1234).unwrap();
    b.write_u32(0xDEADBEEF).unwrap();
    assert_eq!(&b.buff[0..6], &[0x12, 0x34, 0xDE, 0xAD, 0xBE, 0xEF]);
    b.seek(0);
    assert_eq!(b.read_u16(), Ok(0x1234));
    assert_eq!(b.read_u32(), Ok(0xDEADBEEF));
    assert_eq!(b.pos(), 6);
}

#[test]
fn u16_write_fails_without_room() {
    let mut b = BytePacketBuffer::new();
    b.seek(511);
    assert_eq!(b.write_u16(1), Err(PacketError::BufferBounds));
    b.seek(509);
    assert_eq!(b.write_u32(1), Err(PacketError::BufferBounds));
    b.seek(510);
    assert_eq!(b.read_u16(), Ok(0));
}

#[test]
fn set_u16_keeps_cursor() {
    let mut b = BytePacketBuffer::new();
    b.step(3);
    b.set_u16(10, 0xABCD);
    assert_eq!(b.pos(), 3);
    assert_eq!(b.buff[10], 0xAB);
    assert_eq!(b.buff[11], 0xCD);
}

#[test]
fn write_qname_writes_labels() {
    let mut b = BytePacketBuffer::new();
    b.write_qname("example.com").unwrap();
    assert_eq!(b.pos(), 13);
    assert_eq!(&b.buff[0..13], b"\x07example\x03com\x00");
}

#[test]
fn write_qname_empty_name() {
    let mut b = BytePacketBuffer::new();
    b.write_qname("").unwrap();
    assert_eq!(b.pos(), 2);
    assert_eq!(&b.buff[0..2], &[0, 0]);
}

#[test]
fn label_of_64_bytes_is_too_long() {
    let mut b = BytePacketBuffer::new();
    let long = "a".repeat(64);
    assert_eq!(b.write_qname(&long), Err(PacketError::LabelTooLong));
    let mut b = BytePacketBuffer::new();
    let name = format!("www.{}.com", "b".repeat(64));
    assert_eq!(b.write_qname(&name), Err(PacketError::LabelTooLong));
}

#[test]
fn label_of_63_bytes_is_accepted() {
    let mut b = BytePacketBuffer::new();
    let label = "a".repeat(63);
    b.write_qname(&label).unwrap();
    assert_eq!(b.pos(), 65);
    assert_eq!(b.buff[0], 63);
    assert_eq!(b.buff[64], 0);
}

#[test]
fn write_qname_without_room() {
    let mut b = BytePacketBuffer::new();
    b.seek(505);
    assert_eq!(b.write_qname("example.com"), Err(PacketError::BufferBounds));
}

#[test]
fn read_qname_plain_and_lowercased() {
    let mut b = buffer_with(b"\x03WwW\x07Example\x03COM\x00");
    let mut out = String::new();
    b.read_qname(&mut out).unwrap();
    assert_eq!(out, "www.example.com");
    assert_eq!(b.pos(), 17);
}

#[test]
fn read_qname_replaces_invalid_utf8() {
    let mut b = buffer_with(&[2, b'a', 0xFF, 0]);
    let mut out = String::new();
    b.read_qname(&mut out).unwrap();
    assert_eq!(out, "a\u{FFFD}");
}

#[test]
fn pointer_to_name_reads_that_name() {
    let mut b = BytePacketBuffer::new();
    b.write_qname("example.com").unwrap();
    b.seek(20);
    b.write(0xC0).unwrap();
    b.write(0x00).unwrap();
    b.write(0x55).unwrap();
    b.seek(20);
    let mut out = String::new();
    b.read_qname(&mut out).unwrap();
    assert_eq!(out, "example.com");
    assert_eq!(b.pos(), 22);
}

#[test]
fn pointer_after_labels_resumes_after_first_pointer() {
    let mut b = BytePacketBuffer::new();
    b.write_qname("example.com").unwrap();
    b.seek(30);
    for v in [3u8, b'w', b'w', b'w', 0xC0, 0x00] {
        b.write(v).unwrap();
    }
    b.seek(30);
    let mut out = String::new();
    b.read_qname(&mut out).unwrap();
    assert_eq!(out, "www.example.com");
    assert_eq!(b.pos(), 36);
}

#[test]
fn five_pointers_are_followed() {
    let mut b = buffer_with(&[0xC0, 2, 0xC0, 4, 0xC0, 6, 0xC0, 8, 0xC0, 10, 1, b'x', 0]);
    let mut out = String::new();
    b.read_qname(&mut out).unwrap();
    assert_eq!(out, "x");
    assert_eq!(b.pos(), 2);
}

#[test]
fn six_pointers_are_too_many_jumps() {
    let mut b = buffer_with(&[0xC0, 2, 0xC0, 4, 0xC0, 6, 0xC0, 8, 0xC0, 10, 0xC0, 12, 0]);
    let mut out = String::new();
    assert_eq!(b.read_qname(&mut out), Err(PacketError::TooManyJumps));
}

#[test]
fn pointer_loop_terminates() {
    let mut b = buffer_with(&[0xC0, 0x00]);
    let mut out = String::new();
    assert_eq!(b.read_qname(&mut out), Err(PacketError::TooManyJumps));
}

#[test]
fn label_past_end_fails_with_bounds() {
    let mut b = BytePacketBuffer::new();
    b.set(505, 10);
    b.seek(505);
    let mut out = String::new();
    assert_eq!(b.read_qname(&mut out), Err(PacketError::BufferBounds));
}

#[test]
fn result_code_from_number() {
    assert_eq!(ResultCode::from(0), ResultCode::NoError);
    assert_eq!(ResultCode::from(1), ResultCode::FormerR);
    assert_eq!(ResultCode::from(2), ResultCode::ServFail);
    assert_eq!(ResultCode::from(3), ResultCode::NXDomain);
    assert_eq!(ResultCode::from(4), ResultCode::NOTimP);
    assert_eq!(ResultCode::from(5), ResultCode::Refused);
    assert_eq!(ResultCode::from(9), ResultCode::NoError);
    assert_eq!(ResultCode::Refused.to_num(), 5);
}

#[test]
fn query_type_numbers() {
    assert_eq!(QueryType::from(1), QueryType::A);
    assert_eq!(QueryType::from(2), QueryType::NS);
    assert_eq!(QueryType::from(5), QueryType::CNAME);
    assert_eq!(QueryType::from(15), QueryType::MX);
    assert_eq!(QueryType::from(28), QueryType::AAAA);
    assert_eq!(QueryType::from(99), QueryType::Unknown(99));
    assert_eq!(u16::from(QueryType::MX), 15);
    assert_eq!(u16::from(QueryType::Unknown(77)), 77);
}

#[test]
fn header_flags_8180() {
    let mut b = buffer_with(&[0x12, 0x34, 0x81, 0x80, 0, 1, 0, 2, 0, 3, 0, 4]);
    let mut h = DnsHeader::new();
    h.read(&mut b).unwrap();
    assert_eq!(h.id, 0x1234);
    assert!(h.response);
    assert!(h.recursion_desired);
    assert!(h.recursion_available);
    assert!(!h.truncated_msg);
    assert!(!h.authorative_answer);
    assert!(!h.checking_disabled);
    assert!(!h.authed_data);
    assert!(!h.z);
    assert_eq!(h.opcode, 0);
    assert_eq!(h.rescode, ResultCode::NoError);
    assert_eq!((h.questions, h.answers, h.authorative_entries, h.resource_entries), (1, 2, 3, 4));
    assert_eq!(b.pos(), 12);
}

#[test]
fn header_write_packs_bits() {
    let mut h = DnsHeader::new();
    h.id = 0xBEEF;
    h.response = true;
    h.opcode = 2;
    h.authorative_answer = true;
    h.rescode = ResultCode::NXDomain;
    h.authed_data = true;
    h.questions = 1;
    let mut b = BytePacketBuffer::new();
    h.write(&mut b).unwrap();
    assert_eq!(&b.buff[0..12], &[0xBE, 0xEF, 0x94, 0x23, 0, 1, 0, 0, 0, 0, 0, 0]);
    b.seek(0);
    let mut back = DnsHeader::new();
    back.read(&mut b).unwrap();
    assert_eq!(back, h);
}

#[test]
fn header_read_short_buffer() {
    let mut b = BytePacketBuffer::new();
    b.seek(501);
    let mut h = DnsHeader::new();
    assert_eq!(h.read(&mut b), Err(PacketError::BufferBounds));
}

#[test]
fn question_round_trip() {
    let q = DnsQuestion::new("google.com".to_string(), QueryType::A);
    let mut b = BytePacketBuffer::new();
    q.write(&mut b).unwrap();
    assert_eq!(&b.buff[0..16], b"\x06google\x03com\x00\x00\x01\x00\x01");
    b.seek(0);
    let mut back = DnsQuestion::new(String::new(), QueryType::Unknown(0));
    back.read(&mut b).unwrap();
    assert_eq!(back, q);
    assert_eq!(b.pos(), 16);
}

#[test]
fn a_record_encode() {
    let r = DnsRecord::A { domain: "example.com".to_string(), addr: [93, 184, 216, 34], ttl: 3600 };
    let mut b = BytePacketBuffer::new();
    let n = r.write(&mut b).unwrap();
    assert_eq!(n, 27);
    let mut expected = b"\x07example\x03com\x00".to_vec();
    expected.extend_from_slice(&[0, 1, 0, 1, 0x00, 0x00, 0x0E, 0x10, 0, 4, 0x5D, 0xB8, 0xD8, 0x22]);
    assert_eq!(&b.buff[0..27], &expected[..]);
}

#[test]
fn ns_record_length_is_patched() {
    let r = DnsRecord::NS { domain: "example.com".to_string(), host: "ns1.example.com".to_string(), ttl: 60 };
    let mut b = BytePacketBuffer::new();
    let n = r.write(&mut b).unwrap();
    let len_at = 13 + 8;
    let declared = ((b.buff[len_at] as usize) << 8) | b.buff[len_at + 1] as usize;
    assert_eq!(declared, 17);
    assert_eq!(n, len_at + 2 + declared);
    b.seek(len_at + 2);
    let mut host = String::new();
    b.read_qname(&mut host).unwrap();
    assert_eq!(host, "ns1.example.com");
    assert_eq!(b.pos(), len_at + 2 + declared);
}

#[test]
fn mx_record_length_counts_priority() {
    let r = DnsRecord::MX {
        domain: "example.com".to_string(),
        priority: 10,
        host: "mail.example.com".to_string(),
        ttl: 300,
    };
    let mut b = BytePacketBuffer::new();
    let n = r.write(&mut b).unwrap();
    assert_eq!(&b.buff[21..25], &[0, 20, 0, 10]);
    assert_eq!(n, 25 + 18);
    b.seek(0);
    assert_eq!(DnsRecord::read(&mut b).unwrap(), r);
    assert_eq!(b.pos(), n);
}

#[test]
fn record_round_trips() {
    let records = vec![
        DnsRecord::A { domain: "a.example".to_string(), addr: [10, 0, 0, 1], ttl: 1 },
        DnsRecord::NS { domain: "example".to_string(), host: "ns.example".to_string(), ttl: 2 },
        DnsRecord::CNAME { domain: "www.example".to_string(), host: "a.example".to_string(), ttl: 3 },
        DnsRecord::MX { domain: "example".to_string(), priority: 5, host: "mx.example".to_string(), ttl: 4 },
        DnsRecord::AAAA {
            domain: "v6.example".to_string(),
            addr: [0x2001, 0xdb8, 0, 0, 0, 0, 0xff00, 0x42],
            ttl: 5,
        },
    ];
    for r in records {
        let mut b = BytePacketBuffer::new();
        let n = r.write(&mut b).unwrap();
        b.seek(0);
        assert_eq!(DnsRecord::read(&mut b).unwrap(), r);
        assert_eq!(b.pos(), n);
    }
}

#[test]
fn aaaa_record_bytes() {
    let r = DnsRecord::AAAA { domain: "x".to_string(), addr: [1, 2, 3, 4, 5, 6, 7, 0xABCD], ttl: 0 };
    let mut b = BytePacketBuffer::new();
    let n = r.write(&mut b).unwrap();
    assert_eq!(n, 3 + 8 + 2 + 16);
    assert_eq!(&b.buff[11..13], &[0, 16]);
    assert_eq!(&b.buff[13..17], &[0, 1, 0, 2]);
    assert_eq!(&b.buff[27..29], &[0xAB, 0xCD]);
}

#[test]
fn unknown_record_is_skipped_on_read() {
    let mut bytes = b"\x01x\x00".to_vec();
    bytes.extend_from_slice(&[0, 99, 0, 1, 0, 0, 0, 7, 0, 5, 9, 9, 9, 9, 9]);
    let mut b = buffer_with(&bytes);
    let r = DnsRecord::read(&mut b).unwrap();
    assert_eq!(r, DnsRecord::Unknown { domain: "x".to_string(), qtype: 99, data_len: 5, ttl: 7 });
    assert_eq!(b.pos(), 13 + 5);
}

#[test]
fn unknown_record_is_not_written() {
    let r = DnsRecord::Unknown { domain: "x".to_string(), qtype: 99, data_len: 5, ttl: 7 };
    let mut b = BytePacketBuffer::new();
    b.seek(4);
    assert_eq!(r.write(&mut b), Ok(0));
    assert_eq!(b.pos(), 4);
    assert!(b.buff.iter().all(|v| *v == 0));
}

#[test]
fn record_write_reports_long_host_label() {
    let r = DnsRecord::CNAME { domain: "x".to_string(), host: "h".repeat(64), ttl: 0 };
    let mut b = BytePacketBuffer::new();
    assert_eq!(r.write(&mut b), Err(PacketError::LabelTooLong));
}

fn sample_message() -> DnsPackets {
    let mut m = DnsPackets::new();
    m.header.id = 6666;
    m.header.recursion_desired = true;
    m.header.response = true;
    m.header.rescode = ResultCode::ServFail;
    m.header.opcode = 1;
    m.questions.push(DnsQuestion::new("example.com".to_string(), QueryType::MX));
    m.answers.push(DnsRecord::MX {
        domain: "example.com".to_string(),
        priority: 10,
        host: "mail.example.com".to_string(),
        ttl: 3600,
    });
    m.answers.push(DnsRecord::A { domain: "mail.example.com".to_string(), addr: [1, 2, 3, 4], ttl: 60 });
    m.authoritiees.push(DnsRecord::NS {
        domain: "example.com".to_string(),
        host: "ns1.example.com".to_string(),
        ttl: 7200,
    });
    m.resources.push(DnsRecord::AAAA {
        domain: "ns1.example.com".to_string(),
        addr: [0xfe80, 0, 0, 0, 1, 2, 3, 4],
        ttl: 10,
    });
    m.resources.push(DnsRecord::CNAME {
        domain: "www.example.com".to_string(),
        host: "example.com".to_string(),
        ttl: 20,
    });
    m
}

#[test]
fn message_round_trip() {
    let mut m = sample_message();
    m.header.questions = 9;
    let mut b = BytePacketBuffer::new();
    m.write(&mut b).unwrap();
    assert_eq!(m.header.questions, 1);
    assert_eq!(m.header.answers, 2);
    assert_eq!(m.header.authorative_entries, 1);
    assert_eq!(m.header.resource_entries, 2);
    let end = b.pos();
    b.seek(0);
    let back = DnsPackets::from_buffer(&mut b).unwrap();
    assert_eq!(b.pos(), end);
    assert_eq!(back.header, m.header);
    assert_eq!(back.questions, m.questions);
    assert_eq!(back.answers, m.answers);
    assert_eq!(back.authoritiees, m.authoritiees);
    assert_eq!(back.resources, m.resources);
}

#[test]
fn message_from_empty_buffer() {
    let mut b = BytePacketBuffer::new();
    let m = DnsPackets::from_buffer(&mut b).unwrap();
    assert_eq!(m.header, DnsHeader::new());
    assert!(m.questions.is_empty() && m.answers.is_empty());
    assert_eq!(b.pos(), 12);
}

#[test]
fn message_too_large_fails() {
    let mut m = DnsPackets::new();
    for i in 0..40 {
        m.answers.push(DnsRecord::A { domain: format!("host{}.example.com", i), addr: [1, 1, 1, 1], ttl: 1 });
    }
    let mut b = BytePacketBuffer::new();
    assert_eq!(m.write(&mut b), Err(PacketError::BufferBounds));
}

#[test]
fn message_with_truncated_section_fails() {
    let mut b = buffer_with(&[0, 1, 0, 0, 0, 1, 0, 0, 0, 0, 0, 0]);
    b.set(12, 0xC0);
    b.set(13, 12);
    assert_eq!(DnsPackets::from_buffer(&mut b).map(|_| ()), Err(PacketError::TooManyJumps));
}

#[test]
fn append_label_separates_with_dot() {
    let mut out = String::from("www");
    dns_codec::name::append_label(&mut out, "example", false);
    assert_eq!(out, "www.example");
    let mut first = String::new();
    dns_codec::name::append_label(&mut first, "com", true);
    assert_eq!(first, "com");
}
