use dns_server::buffer_error::BufferError;
use dns_server::byte_packet_buffer::BytePacketBuffer;
use dns_server::dns_header::DnsHeader;
use dns_server::dns_packet::DnsPacket;
use dns_server::dns_question::DnsQuestion;
use dns_server::dns_record::DnsRecord;
use dns_server::query_type::QueryType;
use dns_server::result_code::ResultCode;

fn a(domain: &str, addr: u32) -> DnsRecord {
    DnsRecord::A { domain: domain.to_string(), addr, ttl: 60 }
}

fn ns(domain: &str, host: &str) -> DnsRecord {
    DnsRecord::NS { domain: domain.to_string(), host: host.to_string(), ttl: 60 }
}

fn sample() -> DnsPacket {
    let mut p = DnsPacket::new();
    p.header.id = 0xBEEF;
    p.header.response = true;
    p.header.recursion_desired = true;
    p.header.recursion_available = true;
    p.header.authoritative_answer = true;
    p.header.opcode = 1;
    p.header.rescode = ResultCode::REFUSED;
    p.questions.push(DnsQuestion::new("www.example.com".to_string(), QueryType::MX));
    p.answers.push(a("www.example.com", 0x5DB8D822));
    p.answers.push(DnsRecord::CNAME {
        domain: "w3.example.com".to_string(),
        host: "www.example.com".to_string(),
        ttl: 1,
    });
    p.answers.push(DnsRecord::AAAA {
        domain: "www.example.com".to_string(),
        addr: 0x2606_2800_0220_0001_0248_1893_25c8_1946,
        ttl: 2,
    });
    p.authorities.push(ns("example.com", "a.iana-servers.net"));
    p.authorities.push(ns("example.com", "b.iana-servers.net"));
    p.resources.push(DnsRecord::MX {
        domain: "example.com".to_string(),
        priority: 10,
        host: "mail.example.com".to_string(),
        ttl: 3,
    });
    p
}

#[test]
fn new_packet_is_empty() {
    let p = DnsPacket::new();
    assert_eq!(p.header, DnsHeader::new());
    assert!(p.questions.is_empty() && p.answers.is_empty());
    assert!(p.authorities.is_empty() && p.resources.is_empty());
}

#[test]
fn write_sets_the_counts() {
    let mut p = sample();
    p.header.questions = 9;
    p.header.answers = 9;
    let mut b = BytePacketBuffer::new();
    p.write(&mut b).unwrap();
    assert_eq!(p.header.questions, 1);
    assert_eq!(p.header.answers, 3);
    assert_eq!(p.header.authoritative_entries, 2);
    assert_eq!(p.header.resource_entries, 1);
    assert_eq!(&b.buf[4..12], &[0u8, 1, 0, 3, 0, 2, 0, 1][..]);
}

#[test]
fn message_round_trip() {
    let mut p = sample();
    let mut b = BytePacketBuffer::new();
    p.write(&mut b).unwrap();
    let end = b.pos;
    assert!(end < 512);
    b.seek(0).unwrap();
    assert_eq!(DnsPacket::from_buffer(&mut b), Ok(p));
    assert_eq!(b.pos, end);
}

#[test]
fn message_round_trip_away_from_the_start() {
    let mut p = sample();
    let mut b = BytePacketBuffer::new();
    b.seek(200).unwrap();
    p.write(&mut b).unwrap();
    b.seek(200).unwrap();
    assert_eq!(DnsPacket::from_buffer(&mut b), Ok(p));
}

#[test]
fn message_round_trip_lowers_the_names() {
    let mut p = DnsPacket::new();
    p.questions.push(DnsQuestion::new("WWW.Example.COM".to_string(), QueryType::A));
    p.answers.push(ns("Example.COM", "NS.Example.COM"));
    let mut b = BytePacketBuffer::new();
    p.write(&mut b).unwrap();
    b.seek(0).unwrap();
    let back = DnsPacket::from_buffer(&mut b).unwrap();
    assert_eq!(back.header, p.header);
    assert_eq!(back.questions, vec![DnsQuestion::new("www.example.com".to_string(), QueryType::A)]);
    assert_eq!(back.answers, vec![ns("example.com", "ns.example.com")]);
}

#[test]
fn message_of_a_header_alone_round_trips_at_the_end() {
    let mut p = DnsPacket::new();
    p.header.id = 7;
    let mut b = BytePacketBuffer::new();
    b.seek(500).unwrap();
    p.write(&mut b).unwrap();
    assert_eq!(b.pos, 512);
    b.seek(500).unwrap();
    assert_eq!(DnsPacket::from_buffer(&mut b), Ok(p));
}

#[test]
fn message_that_ends_with_a_name_at_the_end_of_the_buffer_is_not_read() {
    let mut p = DnsPacket::new();
    p.answers.push(ns("ab", "c"));
    let mut b = BytePacketBuffer::new();
    b.seek(512 - 12 - 17).unwrap();
    p.write(&mut b).unwrap();
    assert_eq!(b.pos, 512);
    b.seek(512 - 12 - 17).unwrap();
    assert_eq!(DnsPacket::from_buffer(&mut b), Err(BufferError::OutOfBounds));
    // With an address at the end it is.
    let mut p = DnsPacket::new();
    p.answers.push(a("ab", 1));
    b.seek(512 - 12 - 18).unwrap();
    p.write(&mut b).unwrap();
    assert_eq!(b.pos, 512);
    b.seek(512 - 12 - 18).unwrap();
    assert_eq!(DnsPacket::from_buffer(&mut b), Ok(p));
}

#[test]
fn unknown_records_are_counted_but_not_written() {
    let mut p = DnsPacket::new();
    p.answers.push(DnsRecord::UNKNOWN { domain: "x".to_string(), qtype: 99, data_len: 0, ttl: 1 });
    p.answers.push(a("x", 1));
    let mut b = BytePacketBuffer::new();
    p.write(&mut b).unwrap();
    assert_eq!(p.header.answers, 2);
    assert_eq!(b.pos, 12 + 17);
    // What is read back is the record that was written and, for the one
    // that was not, whatever follows in the buffer.
    b.seek(0).unwrap();
    let back = DnsPacket::from_buffer(&mut b).unwrap();
    assert_eq!(
        back.answers,
        vec![
            a("x", 1),
            DnsRecord::UNKNOWN { domain: "".to_string(), qtype: 0, data_len: 0, ttl: 0 }
        ]
    );
    assert_ne!(back, p);
}

#[test]
fn message_write_failures() {
    let mut p = sample();
    let mut b = BytePacketBuffer::new();
    b.seek(400).unwrap();
    assert_eq!(p.write(&mut b), Err(BufferError::EndOfBuffer));
    assert_eq!(b.pos, 512);

    let mut p = sample();
    p.authorities.push(ns("example.com", &"x".repeat(64)));
    let mut b = BytePacketBuffer::new();
    assert_eq!(p.write(&mut b), Err(BufferError::LabelTooLong));
    assert_eq!(p.header.authoritative_entries, 3);

    let mut p = DnsPacket::new();
    let mut b = BytePacketBuffer::new();
    b.seek(501).unwrap();
    assert_eq!(p.write(&mut b), Err(BufferError::EndOfBuffer));
}

#[test]
fn message_that_is_too_large_for_the_buffer_fails() {
    let mut p = DnsPacket::new();
    for i in 0..40 {
        p.answers.push(a("example.com", i));
    }
    let mut b = BytePacketBuffer::new();
    assert_eq!(p.write(&mut b), Err(BufferError::EndOfBuffer));
    assert_eq!(b.pos, 512);
}

fn response_bytes() -> BytePacketBuffer {
    // A response as a name server sends it, with compression pointers.
    let bytes: [u8; 94] = [
        0x86, 0x2a, 0x81, 0x80, 0x00, 0x01, 0x00, 0x01, 0x00, 0x01, 0x00, 0x01, // header
        0x06, b'G', b'o', b'o', b'g', b'l', b'e', 0x03, b'c', b'o', b'm', 0x00, // google.com
        0x00, 0x01, 0x00, 0x01, // A, IN
        0xc0, 0x0c, 0x00, 0x01, 0x00, 0x01, 0x00, 0x00, 0x01, 0x25, 0x00, 0x04, // answer
        0xd8, 0x3a, 0xd3, 0x8e, // 216.58.211.142
        0xc0, 0x13, 0x00, 0x02, 0x00, 0x01, 0x00, 0x00, 0x00, 0x0a, 0x00, 0x06, // NS com
        0x03, b'n', b's', b'1', 0xc0, 0x0c, // ns1.google.com
        0xc0, 0x38, 0x00, 0x1c, 0x00, 0x01, 0x00, 0x00, 0x00, 0x0b, 0x00, 0x10, // AAAA ns1...
        0, 1, 2, 3, 4, 5, 6, 7, 8, 9, 10, 11, 12, 13, 14, 15, // the address
        0, 0, 0, 0,
    ];
    let mut b = BytePacketBuffer::new();
    b.buf[0..94].copy_from_slice(&bytes);
    b
}

#[test]
fn from_buffer_reads_a_compressed_response() {
    let mut b = response_bytes();
    let p = DnsPacket::from_buffer(&mut b).unwrap();
    assert_eq!(b.pos, 90);
    assert_eq!(p.header.id, 0x862a);
    assert!(p.header.response && p.header.recursion_desired && p.header.recursion_available);
    assert!(!p.header.authoritative_answer && !p.header.truncated_message);
    assert_eq!(p.header.opcode, 0);
    assert_eq!(p.header.rescode, ResultCode::NOERROR);
    assert_eq!(
        (
            p.header.questions,
            p.header.answers,
            p.header.authoritative_entries,
            p.header.resource_entries
        ),
        (1, 1, 1, 1)
    );
    assert_eq!(p.questions, vec![DnsQuestion::new("google.com".to_string(), QueryType::A)]);
    assert_eq!(
        p.answers,
        vec![DnsRecord::A { domain: "google.com".to_string(), addr: 0xd83ad38e, ttl: 293 }]
    );
    assert_eq!(
        p.authorities,
        vec![DnsRecord::NS {
            domain: "com".to_string(),
            host: "ns1.google.com".to_string(),
            ttl: 10
        }]
    );
    assert_eq!(
        p.resources,
        vec![DnsRecord::AAAA {
            domain: "ns1.google.com".to_string(),
            addr: 0x0001_0203_0405_0607_0809_0a0b_0c0d_0e0f,
            ttl: 11
        }]
    );
}

#[test]
fn from_buffer_counts_drive_the_reading() {
    let mut b = response_bytes();
    b.buf[7] = 2;
    assert_eq!(DnsPacket::from_buffer(&mut b).unwrap().answers.len(), 2);
    let mut b = response_bytes();
    b.buf[11] = 0;
    let p = DnsPacket::from_buffer(&mut b).unwrap();
    assert!(p.resources.is_empty());
    assert_eq!(b.pos, 62);
}

#[test]
fn from_buffer_failures() {
    let mut b = BytePacketBuffer::new();
    b.seek(501).unwrap();
    assert_eq!(DnsPacket::from_buffer(&mut b), Err(BufferError::BufferOverflow));
    // More questions are counted than the buffer can hold: a hundred
    // questions for the root fill it, and the next has no first byte.
    let mut b = BytePacketBuffer::new();
    b.buf[4] = 0xFF;
    b.buf[5] = 0xFF;
    assert_eq!(DnsPacket::from_buffer(&mut b), Err(BufferError::OutOfBounds));
    assert_eq!(b.pos, 512);
    b.buf[4] = 0;
    b.buf[5] = 100;
    b.seek(0).unwrap();
    assert_eq!(DnsPacket::from_buffer(&mut b).unwrap().questions.len(), 100);
    // The buffer ends within a question.
    b.buf[507] = 1;
    b.seek(0).unwrap();
    assert_eq!(DnsPacket::from_buffer(&mut b), Err(BufferError::BufferOverflow));
    // A name that points to itself.
    let mut b = BytePacketBuffer::new();
    b.buf[5] = 1;
    b.buf[12] = 0xC0;
    b.buf[13] = 12;
    assert_eq!(DnsPacket::from_buffer(&mut b), Err(BufferError::TooManyJumps));
    // An unknown record whose data would reach beyond the buffer.
    let mut b = BytePacketBuffer::new();
    b.buf[7] = 1;
    b.buf[12 + 2] = 99;
    b.buf[12 + 9] = 0xFF;
    assert_eq!(DnsPacket::from_buffer(&mut b), Err(BufferError::Overflow));
}

#[test]
fn first_address_of_the_answers() {
    let mut p = DnsPacket::new();
    assert_eq!(p.get_random_a(), None);
    p.answers.push(DnsRecord::CNAME { domain: "a".to_string(), host: "b".to_string(), ttl: 1 });
    p.answers.push(DnsRecord::AAAA { domain: "b".to_string(), addr: 5, ttl: 1 });
    assert_eq!(p.get_random_a(), None);
    p.answers.push(a("b", 0x0A000001));
    p.answers.push(a("b", 0x0A000002));
    assert_eq!(p.get_random_a(), Some(0x0A000001));
    p.resources.push(a("zz", 9));
    p.authorities.push(a("zz", 9));
    assert_eq!(p.get_random_a(), Some(0x0A000001));
}

fn delegation() -> DnsPacket {
    let mut p = DnsPacket::new();
    p.authorities.push(ns("org", "ns.org-servers.net"));
    p.authorities.push(ns("com", "a.gtld-servers.net"));
    p.authorities.push(ns("com", "b.gtld-servers.net"));
    p.authorities.push(a("com", 0x7F000001));
    p.resources.push(DnsRecord::AAAA { domain: "a.gtld-servers.net".to_string(), addr: 1, ttl: 1 });
    p.resources.push(a("ns.org-servers.net", 0x01010101));
    p.resources.push(a("b.gtld-servers.net", 0x0B0B0B0B));
    p.resources.push(a("b.gtld-servers.net", 0x0C0C0C0C));
    p
}

#[test]
fn resolved_name_server() {
    let p = delegation();
    assert_eq!(p.get_resolved_ns("www.example.com"), Some(0x0B0B0B0B));
    assert_eq!(p.get_resolved_ns("com"), Some(0x0B0B0B0B));
    assert_eq!(p.get_resolved_ns("example.org"), Some(0x01010101));
    assert_eq!(p.get_resolved_ns("example.net"), None);
    assert_eq!(p.get_resolved_ns("co"), None);
    assert_eq!(p.get_resolved_ns(""), None);
}

#[test]
fn resolved_name_server_goes_by_the_order_of_the_authorities() {
    let mut p = delegation();
    p.resources.insert(0, a("a.gtld-servers.net", 0x0A0A0A0A));
    assert_eq!(p.get_resolved_ns("www.example.com"), Some(0x0A0A0A0A));
    let mut p = delegation();
    p.authorities.swap(1, 2);
    p.resources.push(a("a.gtld-servers.net", 0x0A0A0A0A));
    assert_eq!(p.get_resolved_ns("www.example.com"), Some(0x0B0B0B0B));
}

#[test]
fn delegation_is_by_the_end_of_the_name() {
    let mut p = DnsPacket::new();
    p.authorities.push(ns("example.com", "ns.example.com"));
    p.resources.push(a("ns.example.com", 7));
    assert_eq!(p.get_resolved_ns("www.example.com"), Some(7));
    assert_eq!(p.get_resolved_ns("example.com"), Some(7));
    // The owner's name need not end at a dot of the name asked for.
    assert_eq!(p.get_resolved_ns("notexample.com"), Some(7));
    assert_eq!(p.get_resolved_ns("example.com.au"), None);
    assert_eq!(p.get_resolved_ns("Example.com"), None);
    // The empty name ends every name.
    let mut p = DnsPacket::new();
    p.authorities.push(ns("", "a.root-servers.net"));
    p.resources.push(a("a.root-servers.net", 8));
    assert_eq!(p.get_resolved_ns("anything"), Some(8));
    assert_eq!(p.get_resolved_ns(""), Some(8));
}

#[test]
fn glue_must_match_the_host_exactly() {
    let mut p = DnsPacket::new();
    p.authorities.push(ns("com", "ns.com"));
    p.resources.push(a("xns.com", 1));
    p.resources.push(a("ns.co", 2));
    p.resources.push(a("NS.com", 3));
    assert_eq!(p.get_resolved_ns("a.com"), None);
    assert_eq!(p.get_unresolved_ns("a.com"), Some("ns.com".to_string()));
}

#[test]
fn unresolved_name_server() {
    let p = delegation();
    assert_eq!(p.get_unresolved_ns("www.example.com"), Some("a.gtld-servers.net".to_string()));
    assert_eq!(p.get_unresolved_ns("example.org"), None);
    assert_eq!(p.get_unresolved_ns("example.net"), None);
    let mut p = delegation();
    p.resources.push(a("a.gtld-servers.net", 0x0A0A0A0A));
    assert_eq!(p.get_unresolved_ns("www.example.com"), None);
    let mut p = DnsPacket::new();
    p.authorities.push(ns("com", "x.net"));
    p.authorities.push(ns("com", "y.net"));
    assert_eq!(p.get_unresolved_ns("a.com"), Some("x.net".to_string()));
    assert_eq!(p.get_resolved_ns("a.com"), None);
}
