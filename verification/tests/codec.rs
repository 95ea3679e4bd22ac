use simple_dns::buffer::BytePacketBuffer;
use simple_dns::header::DnsHeader;
use simple_dns::packet::DnsPacket;
use simple_dns::question::DnsQuestion;
use simple_dns::record::DnsRecord;
use simple_dns::types::{DnsError, Ipv4, Ipv6, QueryType, ResultCode};

fn buffer_with(bytes: &[u8]) -> BytePacketBuffer {
    let mut buffer = BytePacketBuffer::new();
    buffer.buf[..bytes.len()].copy_from_slice(bytes);
    buffer
}

#[test]
fn buffer_primitives_round() {
    let mut buffer = BytePacketBuffer::new();
    buffer.write_u16(0xBEEF).unwrap();
    buffer.write_u32(0x01020304).unwrap();
    buffer.write_u8(0x7F).unwrap();
    buffer.seek(0).unwrap();
    assert_eq!(buffer.read_u16().unwrap(), 0xBEEF);
    assert_eq!(buffer.read_u32().unwrap(), 0x01020304);
    assert_eq!(buffer.read().unwrap(), 0x7F);
    assert_eq!(buffer.pos(), 7);
}

#[test]
fn buffer_end_of_buffer_errors() {
    let mut buffer = BytePacketBuffer::new();
    buffer.seek(512).unwrap();
    assert_eq!(buffer.read(), Err(DnsError::EndOfBuffer));
    assert_eq!(buffer.write(1), Err(DnsError::EndOfBuffer));
    assert_eq!(buffer.single_byte(512), Err(DnsError::EndOfBuffer));
    // The range peek rejects start + len >= 512: the last byte is out of
    // its reach even though a single-byte read can see it.
    assert_eq!(buffer.range_of_bytes(510, 2), Err(DnsError::EndOfBuffer));
    assert!(buffer.range_of_bytes(509, 2).is_ok());
    assert_eq!(buffer.single_byte(511), Ok(0));
    assert_eq!(buffer.set(512, 1), Err(DnsError::EndOfBuffer));
    assert_eq!(buffer.set_u16(511, 1), Err(DnsError::EndOfBuffer));
}

#[test]
fn header_decode_s1() {
    let mut buffer = buffer_with(&[
        0x86, 0x2a, 0x81, 0x80, 0x00, 0x01, 0x00, 0x01, 0x00, 0x00, 0x00, 0x00,
    ]);
    let mut header = DnsHeader::new();
    header.read(&mut buffer).unwrap();
    assert_eq!(header.id, 0x862A);
    assert!(header.response);
    assert!(header.recursion_desired);
    assert!(header.recursion_available);
    assert!(!header.truncated_message);
    assert!(!header.authoritative_answer);
    assert_eq!(header.opcode, 0);
    assert_eq!(header.rescode, ResultCode::NOERROR);
    assert_eq!(header.questions, 1);
    assert_eq!(header.answers, 1);
    assert_eq!(header.authoritative_entries, 0);
    assert_eq!(header.resource_entries, 0);
    assert_eq!(buffer.pos(), 12);
}

const S2_BYTES: [u8; 21] = [
    0x03, 0x77, 0x77, 0x77, 0x07, 0x65, 0x78, 0x61, 0x6d, 0x70, 0x6c, 0x65, 0x03, 0x63, 0x6f,
    0x6d, 0x00, 0x00, 0x01, 0x00, 0x01,
];

#[test]
fn question_decode_s2() {
    let mut bytes = vec![
        0x86, 0x2a, 0x81, 0x80, 0x00, 0x01, 0x00, 0x01, 0x00, 0x00, 0x00, 0x00,
    ];
    bytes.extend_from_slice(&S2_BYTES);
    let mut buffer = buffer_with(&bytes);
    buffer.seek(12).unwrap();
    let mut question = DnsQuestion::new(Vec::new(), QueryType::UNKNOWN(0));
    question.read(&mut buffer).unwrap();
    assert_eq!(question.name, b"www.example.com".to_vec());
    assert_eq!(question.qtype, QueryType::A);
    assert_eq!(buffer.pos(), 33);
}

#[test]
fn a_record_decode_s3() {
    let mut bytes = vec![
        0x86, 0x2a, 0x81, 0x80, 0x00, 0x01, 0x00, 0x01, 0x00, 0x00, 0x00, 0x00,
    ];
    bytes.extend_from_slice(&S2_BYTES);
    bytes.extend_from_slice(&[
        0xc0, 0x0c, 0x00, 0x01, 0x00, 0x01, 0x00, 0x00, 0x00, 0x3c, 0x00, 0x04, 0x5d, 0xb8,
        0xd8, 0x22,
    ]);
    let mut buffer = buffer_with(&bytes);
    buffer.seek(33).unwrap();
    let record = DnsRecord::read(&mut buffer).unwrap();
    assert_eq!(
        record,
        DnsRecord::A {
            domain: b"www.example.com".to_vec(),
            addr: Ipv4::new(93, 184, 216, 34),
            ttl: 60,
        }
    );
}

#[test]
fn whole_packet_decode() {
    let mut bytes = vec![
        0x86, 0x2a, 0x81, 0x80, 0x00, 0x01, 0x00, 0x01, 0x00, 0x00, 0x00, 0x00,
    ];
    bytes.extend_from_slice(&S2_BYTES);
    bytes.extend_from_slice(&[
        0xc0, 0x0c, 0x00, 0x01, 0x00, 0x01, 0x00, 0x00, 0x00, 0x3c, 0x00, 0x04, 0x5d, 0xb8,
        0xd8, 0x22,
    ]);
    let mut buffer = buffer_with(&bytes);
    let packet = DnsPacket::from_buffer(&mut buffer).unwrap();
    assert_eq!(packet.questions.len(), 1);
    assert_eq!(packet.questions[0].name, b"www.example.com".to_vec());
    assert_eq!(packet.answers.len(), 1);
    assert!(matches!(packet.answers[0], DnsRecord::A { ttl: 60, .. }));
}

#[test]
fn a_record_encode_s4() {
    let record = DnsRecord::A {
        domain: b"x.y".to_vec(),
        addr: Ipv4::new(1, 2, 3, 4),
        ttl: 300,
    };
    let mut buffer = BytePacketBuffer::new();
    let written = record.write(&mut buffer).unwrap();
    let expected = [
        0x01, 0x78, 0x01, 0x79, 0x00, 0x00, 0x01, 0x00, 0x01, 0x00, 0x00, 0x01, 0x2c, 0x00,
        0x04, 0x01, 0x02, 0x03, 0x04,
    ];
    assert_eq!(written, expected.len());
    assert_eq!(&buffer.buf[..expected.len()], &expected);
    assert_eq!(buffer.pos(), expected.len());
}

#[test]
fn mx_record_encode_back_patched_rdlength_s5() {
    let record = DnsRecord::MX {
        domain: b"a".to_vec(),
        host: b"mail.a".to_vec(),
        priority: 10,
        ttl: 300,
    };
    let mut buffer = BytePacketBuffer::new();
    let written = record.write(&mut buffer).unwrap();
    // head: name "a" (3 bytes), type, class, ttl (8 bytes) -> RDLENGTH at 11.
    let rdlength = ((buffer.buf[11] as u16) << 8) | buffer.buf[12] as u16;
    // body: 00 0a plus the encoded name of "mail.a" (1+4+1+1+1 = 8 bytes).
    assert_eq!(rdlength, 10);
    assert_eq!(written, 13 + 10);
    assert_eq!(&buffer.buf[13..15], &[0x00, 0x0a]);
    assert_eq!(
        &buffer.buf[15..23],
        &[0x04, b'm', b'a', b'i', b'l', 0x01, b'a', 0x00]
    );
}

#[test]
fn name_decompression_follows_pointer() {
    // "example.com" encoded at offset 0; a pointer to it at offset 20.
    let mut bytes = [0u8; 24];
    let name = [
        0x07, b'e', b'x', b'a', b'm', b'p', b'l', b'e', 0x03, b'c', b'o', b'm', 0x00,
    ];
    bytes[..name.len()].copy_from_slice(&name);
    bytes[20] = 0xC0;
    bytes[21] = 0x00;
    let mut buffer = buffer_with(&bytes);
    buffer.seek(20).unwrap();
    let mut out = Vec::new();
    buffer.read_qname(&mut out).unwrap();
    assert_eq!(out, b"example.com".to_vec());
    // The main cursor moves past the 2-byte pointer, not into the target.
    assert_eq!(buffer.pos(), 22);
}

#[test]
fn name_decode_lowercases() {
    let bytes = [0x03, b'W', b'w', b'W', 0x02, b'A', b'b', 0x00];
    let mut buffer = buffer_with(&bytes);
    let mut out = Vec::new();
    buffer.read_qname(&mut out).unwrap();
    assert_eq!(out, b"www.ab".to_vec());
}

#[test]
fn jump_limit_self_pointer() {
    let mut buffer = buffer_with(&[0xC0, 0x00]);
    let mut out = Vec::new();
    assert_eq!(buffer.read_qname(&mut out), Err(DnsError::JumpLimit));
}

#[test]
fn jump_limit_six_deep_chain() {
    // Six pointers, each to the next; the sixth dereference is one too many.
    let mut bytes = [0u8; 16];
    for k in 0..6 {
        bytes[2 * k] = 0xC0;
        bytes[2 * k + 1] = (2 * k + 2) as u8;
    }
    bytes[12] = 0x00; // would terminate if ever reached
    let mut buffer = buffer_with(&bytes);
    let mut out = Vec::new();
    assert_eq!(buffer.read_qname(&mut out), Err(DnsError::JumpLimit));
}

#[test]
fn five_jumps_still_succeed() {
    let mut bytes = [0u8; 16];
    for k in 0..5 {
        bytes[2 * k] = 0xC0;
        bytes[2 * k + 1] = (2 * k + 2) as u8;
    }
    bytes[10] = 0x01;
    bytes[11] = b'a';
    bytes[12] = 0x00;
    let mut buffer = buffer_with(&bytes);
    let mut out = Vec::new();
    buffer.read_qname(&mut out).unwrap();
    assert_eq!(out, b"a".to_vec());
    assert_eq!(buffer.pos(), 2);
}

#[test]
fn label_length_sixty_four_fails() {
    let name = vec![b'a'; 64];
    let mut buffer = BytePacketBuffer::new();
    assert_eq!(buffer.write_qname(&name), Err(DnsError::LabelTooLong));
}

#[test]
fn label_length_sixty_three_succeeds() {
    let name = vec![b'a'; 63];
    let mut buffer = BytePacketBuffer::new();
    buffer.write_qname(&name).unwrap();
    assert_eq!(buffer.pos(), 65);
    assert_eq!(buffer.buf[0], 63);
    assert_eq!(buffer.buf[64], 0);
    let mut out = Vec::new();
    buffer.seek(0).unwrap();
    buffer.read_qname(&mut out).unwrap();
    assert_eq!(out, name);
}

#[test]
fn section_counts_are_authoritative() {
    let mut packet = DnsPacket::new();
    // Pre-populate the header with counts that contradict the sections.
    packet.header.questions = 40;
    packet.header.answers = 41;
    packet.header.authoritative_entries = 42;
    packet.header.resource_entries = 43;
    packet
        .questions
        .push(DnsQuestion::new(b"example.com".to_vec(), QueryType::A));
    packet.answers.push(DnsRecord::A {
        domain: b"example.com".to_vec(),
        addr: Ipv4::new(9, 9, 9, 9),
        ttl: 1,
    });
    let mut buffer = BytePacketBuffer::new();
    packet.write(&mut buffer).unwrap();
    assert_eq!(packet.header.questions, 1);
    assert_eq!(packet.header.answers, 1);
    assert_eq!(packet.header.authoritative_entries, 0);
    assert_eq!(packet.header.resource_entries, 0);
    // The counts on the wire equal the in-memory section lengths.
    assert_eq!(&buffer.buf[4..12], &[0, 1, 0, 1, 0, 0, 0, 0]);
}

#[test]
fn packet_round_trip_known_types() {
    let mut packet = DnsPacket::new();
    packet.header.id = 4660;
    packet.header.recursion_desired = true;
    packet
        .questions
        .push(DnsQuestion::new(b"www.example.com".to_vec(), QueryType::MX));
    packet.answers.push(DnsRecord::MX {
        domain: b"example.com".to_vec(),
        host: b"mail.example.com".to_vec(),
        priority: 10,
        ttl: 3600,
    });
    packet.answers.push(DnsRecord::AAAA {
        domain: b"example.com".to_vec(),
        addr: Ipv6::new(0x2606, 0x2800, 0x220, 0x1, 0x248, 0x1893, 0x25c8, 0x1946),
        ttl: 60,
    });
    packet.authorities.push(DnsRecord::NS {
        domain: b"example.com".to_vec(),
        host: b"ns1.example.com".to_vec(),
        ttl: 86400,
    });
    packet.authorities.push(DnsRecord::CNAME {
        domain: b"alias.example.com".to_vec(),
        host: b"example.com".to_vec(),
        ttl: 10,
    });
    packet.resources.push(DnsRecord::A {
        domain: b"ns1.example.com".to_vec(),
        addr: Ipv4::new(192, 0, 2, 1),
        ttl: 86400,
    });
    let mut buffer = BytePacketBuffer::new();
    packet.write(&mut buffer).unwrap();
    buffer.seek(0).unwrap();
    let decoded = DnsPacket::from_buffer(&mut buffer).unwrap();
    assert_eq!(decoded, packet);

    // Decode, encode and decode again: the third packet equals the second.
    let mut again = BytePacketBuffer::new();
    let mut decoded2 = decoded.clone();
    decoded2.write(&mut again).unwrap();
    again.seek(0).unwrap();
    let decoded3 = DnsPacket::from_buffer(&mut again).unwrap();
    assert_eq!(decoded3, decoded2);
}

#[test]
fn unknown_records_are_skipped_on_write() {
    let record = DnsRecord::UNKNOWN {
        domain: b"example.com".to_vec(),
        qtype: 99,
        data_len: 3,
        ttl: 9,
    };
    let mut buffer = BytePacketBuffer::new();
    assert_eq!(record.write(&mut buffer).unwrap(), 0);
    assert_eq!(buffer.pos(), 0);
}

#[test]
fn unknown_record_decode_skips_body() {
    // type 99, class 1, ttl 7, rdlength 3, then 3 opaque bytes.
    let bytes = [
        0x01, b'a', 0x00, 0x00, 0x63, 0x00, 0x01, 0x00, 0x00, 0x00, 0x07, 0x00, 0x03, 0xAA,
        0xBB, 0xCC,
    ];
    let mut buffer = buffer_with(&bytes);
    let record = DnsRecord::read(&mut buffer).unwrap();
    assert_eq!(
        record,
        DnsRecord::UNKNOWN {
            domain: b"a".to_vec(),
            qtype: 99,
            data_len: 3,
            ttl: 7,
        }
    );
    assert_eq!(buffer.pos(), 16);
}

#[test]
fn result_code_mapping() {
    assert_eq!(ResultCode::from_num(0), ResultCode::NOERROR);
    assert_eq!(ResultCode::from_num(1), ResultCode::FORMERR);
    assert_eq!(ResultCode::from_num(2), ResultCode::SERVFAIL);
    assert_eq!(ResultCode::from_num(3), ResultCode::NXDOMAIN);
    assert_eq!(ResultCode::from_num(4), ResultCode::NOTIMP);
    assert_eq!(ResultCode::from_num(5), ResultCode::REFUSED);
    // Unknown numeric codes map to NOERROR.
    assert_eq!(ResultCode::from_num(6), ResultCode::NOERROR);
    assert_eq!(ResultCode::from_num(200), ResultCode::NOERROR);
}

#[test]
fn query_type_mapping() {
    assert_eq!(QueryType::A.to_num(), 1);
    assert_eq!(QueryType::NS.to_num(), 2);
    assert_eq!(QueryType::CNAME.to_num(), 5);
    assert_eq!(QueryType::MX.to_num(), 15);
    assert_eq!(QueryType::AAAA.to_num(), 28);
    assert_eq!(QueryType::UNKNOWN(777).to_num(), 777);
    assert_eq!(QueryType::from_num(1), QueryType::A);
    assert_eq!(QueryType::from_num(2), QueryType::NS);
    assert_eq!(QueryType::from_num(5), QueryType::CNAME);
    assert_eq!(QueryType::from_num(15), QueryType::MX);
    assert_eq!(QueryType::from_num(28), QueryType::AAAA);
    assert_eq!(QueryType::from_num(777), QueryType::UNKNOWN(777));
}

#[test]
fn header_encode_packs_qr_with_opcode_shift() {
    // The QR bit is packed with a shift of 3 on this wire layout.
    let mut header = DnsHeader::new();
    header.response = true;
    let mut buffer = BytePacketBuffer::new();
    header.write(&mut buffer).unwrap();
    assert_eq!(buffer.buf[2], 1 << 3);
}

#[test]
fn encode_overflow_rejected() {
    let mut packet = DnsPacket::new();
    for _ in 0..40 {
        packet.answers.push(DnsRecord::A {
            domain: b"a.very.long.domain.name.example.com".to_vec(),
            addr: Ipv4::new(1, 2, 3, 4),
            ttl: 1,
        });
    }
    let mut buffer = BytePacketBuffer::new();
    assert_eq!(packet.write(&mut buffer), Err(DnsError::EndOfBuffer));
}
