use dns_server::buffer_error::BufferError;
use dns_server::byte_packet_buffer::BytePacketBuffer;
use dns_server::dns_question::DnsQuestion;
use dns_server::dns_record::DnsRecord;
use dns_server::query_type::QueryType;

fn with_bytes(at: usize, bytes: &[u8]) -> BytePacketBuffer {
    let mut b = BytePacketBuffer::new();
    b.buf[at..at + bytes.len()].copy_from_slice(bytes);
    b
}

#[test]
fn question_new_keeps_its_fields() {
    let q = DnsQuestion::new("example.com".to_string(), QueryType::MX);
    assert_eq!(q.name, "example.com");
    assert_eq!(q.qtype, QueryType::MX);
}

#[test]
fn question_wire_form() {
    let q = DnsQuestion::new("a.bc".to_string(), QueryType::AAAA);
    let mut b = BytePacketBuffer::new();
    q.write(&mut b).unwrap();
    assert_eq!(&b.buf[0..10], &[1u8, b'a', 2, b'b', b'c', 0, 0, 28, 0, 1][..]);
    assert_eq!(b.pos, 10);
}

#[test]
fn question_round_trip() {
    let q = DnsQuestion::new("www.example.com".to_string(), QueryType::UNKNOWN(257));
    let mut b = BytePacketBuffer::new();
    q.write(&mut b).unwrap();
    let end = b.pos;
    b.seek(0).unwrap();
    let mut back = DnsQuestion::new(String::new(), QueryType::UNKNOWN(0));
    back.read(&mut b).unwrap();
    assert_eq!(back, q);
    assert_eq!(b.pos, end);
}

#[test]
fn question_read_drops_the_class() {
    let mut b = with_bytes(0, &[1, b'x', 0, 0, 5, 0xAB, 0xCD]);
    let mut q = DnsQuestion::new(String::new(), QueryType::UNKNOWN(0));
    q.read(&mut b).unwrap();
    assert_eq!(q, DnsQuestion::new("x".to_string(), QueryType::CNAME));
    assert_eq!(b.pos, 7);
}

#[test]
fn question_read_appends_to_the_name() {
    let mut b = with_bytes(0, &[1, b'x', 0, 0, 1, 0, 1]);
    let mut q = DnsQuestion::new("pre".to_string(), QueryType::MX);
    q.read(&mut b).unwrap();
    assert_eq!(q, DnsQuestion::new("prex".to_string(), QueryType::A));
}

#[test]
fn question_read_that_fails_keeps_what_was_read() {
    let mut b = with_bytes(507, &[1, b'x', 0, 0, 2]);
    b.pos = 507;
    let mut q = DnsQuestion::new(String::new(), QueryType::MX);
    assert_eq!(q.read(&mut b).err(), Some(BufferError::BufferOverflow));
    assert_eq!(q, DnsQuestion::new("x".to_string(), QueryType::NS));
    assert_eq!(b.pos, 512);
    let mut b = with_bytes(508, &[1, b'x', 0, 0]);
    b.pos = 508;
    let mut q = DnsQuestion::new(String::new(), QueryType::MX);
    assert_eq!(q.read(&mut b).err(), Some(BufferError::BufferOverflow));
    assert_eq!(q, DnsQuestion::new("x".to_string(), QueryType::MX));
    assert_eq!(b.pos, 512);
}

#[test]
fn question_write_failures() {
    let q = DnsQuestion::new("x".repeat(64), QueryType::A);
    let mut b = BytePacketBuffer::new();
    assert_eq!(q.write(&mut b), Err(BufferError::LabelTooLong));
    assert_eq!(b.pos, 0);
    let q = DnsQuestion::new("abc".to_string(), QueryType::A);
    let mut b = BytePacketBuffer::new();
    b.seek(504).unwrap();
    assert_eq!(q.write(&mut b), Err(BufferError::EndOfBuffer));
    assert_eq!(b.pos, 512);
    assert_eq!(&b.buf[504..512], &[3u8, b'a', b'b', b'c', 0, 0, 1, 0][..]);
}

#[test]
fn address_record_wire_form() {
    let r = DnsRecord::A { domain: "a.b".to_string(), addr: 0x01020304, ttl: 300 };
    let mut b = BytePacketBuffer::new();
    assert_eq!(r.write(&mut b), Ok(19));
    let want = [1u8, b'a', 1, b'b', 0, 0, 1, 0, 1, 0, 0, 1, 0x2C, 0, 4, 1, 2, 3, 4];
    assert_eq!(&b.buf[0..19], &want[..]);
    assert_eq!(b.pos, 19);
}

#[test]
fn address6_record_wire_form() {
    let addr = 0x2001_0db8_0000_0000_0000_ff00_0042_8329u128;
    let r = DnsRecord::AAAA { domain: "x".to_string(), addr, ttl: 1 };
    let mut b = BytePacketBuffer::new();
    assert_eq!(r.write(&mut b), Ok(29));
    let want = [
        1u8, b'x', 0, 0, 28, 0, 1, 0, 0, 0, 1, 0, 16, 0x20, 0x01, 0x0d, 0xb8, 0, 0, 0, 0, 0, 0,
        0xff, 0, 0, 0x42, 0x83, 0x29,
    ];
    assert_eq!(&b.buf[0..29], &want[..]);
}

#[test]
fn name_server_record_length_is_filled_in() {
    let r = DnsRecord::NS { domain: "x".to_string(), host: "ns.x".to_string(), ttl: 0x01020304 };
    let mut b = BytePacketBuffer::new();
    b.seek(7).unwrap();
    assert_eq!(r.write(&mut b), Ok(19));
    let want = [1u8, b'x', 0, 0, 2, 0, 1, 1, 2, 3, 4, 0, 6, 2, b'n', b's', 1, b'x', 0];
    assert_eq!(&b.buf[7..26], &want[..]);
    assert_eq!(b.pos, 26);
}

#[test]
fn alias_record_wire_form() {
    let r = DnsRecord::CNAME { domain: "x".to_string(), host: "y".to_string(), ttl: 5 };
    let mut b = BytePacketBuffer::new();
    assert_eq!(r.write(&mut b), Ok(16));
    let want = [1u8, b'x', 0, 0, 5, 0, 1, 0, 0, 0, 5, 0, 3, 1, b'y', 0];
    assert_eq!(&b.buf[0..16], &want[..]);
}

#[test]
fn mail_record_length_counts_the_priority() {
    let r = DnsRecord::MX {
        domain: "x".to_string(),
        priority: 0x0A0B,
        host: "m.x".to_string(),
        ttl: 9,
    };
    let mut b = BytePacketBuffer::new();
    assert_eq!(r.write(&mut b), Ok(20));
    let want = [1u8, b'x', 0, 0, 15, 0, 1, 0, 0, 0, 9, 0, 7, 0x0A, 0x0B, 1, b'm', 1, b'x', 0];
    assert_eq!(&b.buf[0..20], &want[..]);
}

#[test]
fn unknown_record_is_not_written() {
    let r = DnsRecord::UNKNOWN { domain: "x".to_string(), qtype: 99, data_len: 4, ttl: 9 };
    let mut b = BytePacketBuffer::new();
    b.seek(3).unwrap();
    assert_eq!(r.write(&mut b), Ok(0));
    assert_eq!(b.pos, 3);
    assert!(b.buf.iter().all(|x| *x == 0));
    b.pos = 600;
    assert_eq!(r.write(&mut b), Ok(0));
    let long = DnsRecord::UNKNOWN { domain: "x".repeat(70), qtype: 99, data_len: 4, ttl: 9 };
    assert_eq!(long.write(&mut b), Ok(0));
}

fn round_trip(r: &DnsRecord, at: usize) {
    let mut b = BytePacketBuffer::new();
    b.seek(at).unwrap();
    let n = r.write(&mut b).unwrap();
    assert_eq!(b.pos, at + n);
    b.seek(at).unwrap();
    assert_eq!(DnsRecord::read(&mut b), Ok(r.clone()));
    assert_eq!(b.pos, at + n);
}

#[test]
fn records_of_every_known_kind_round_trip() {
    round_trip(&DnsRecord::A { domain: "example.com".to_string(), addr: 0xC0000201, ttl: 3600 }, 0);
    round_trip(&DnsRecord::A { domain: "a".to_string(), addr: u32::MAX, ttl: u32::MAX }, 12);
    round_trip(
        &DnsRecord::AAAA { domain: "example.com".to_string(), addr: u128::MAX - 5, ttl: 0 },
        40,
    );
    round_trip(&DnsRecord::AAAA { domain: "v6.example".to_string(), addr: 1, ttl: 77 }, 0);
    round_trip(
        &DnsRecord::NS {
            domain: "com".to_string(),
            host: "a.gtld-servers.net".to_string(),
            ttl: 172800,
        },
        100,
    );
    round_trip(
        &DnsRecord::CNAME {
            domain: "www.example.com".to_string(),
            host: "example.com".to_string(),
            ttl: 60,
        },
        0,
    );
    round_trip(
        &DnsRecord::MX {
            domain: "example.com".to_string(),
            priority: 10,
            host: "mail.example.com".to_string(),
            ttl: 1,
        },
        200,
    );
}

#[test]
fn record_of_the_empty_name_does_not_round_trip() {
    // The empty name is written as an empty label and the closing zero,
    // and the empty label is read as the end of the name.
    let r = DnsRecord::A { domain: "".to_string(), addr: 0x01020304, ttl: 0x00630000 };
    let mut b = BytePacketBuffer::new();
    assert_eq!(r.write(&mut b), Ok(16));
    assert_eq!(&b.buf[0..4], &[0u8, 0, 0, 1][..]);
    b.seek(0).unwrap();
    assert_eq!(
        DnsRecord::read(&mut b),
        Ok(DnsRecord::UNKNOWN { domain: "".to_string(), qtype: 0, data_len: 0, ttl: 0x01006300 })
    );
}

#[test]
fn record_that_ends_with_the_buffer() {
    // An address may be the last thing in the buffer.
    let r = DnsRecord::A { domain: "ab".to_string(), addr: 7, ttl: 1 };
    round_trip(&r, 512 - 18);
    // A host name may not: the cursor has no place behind it.
    let r = DnsRecord::NS { domain: "ab".to_string(), host: "c".to_string(), ttl: 1 };
    let mut b = BytePacketBuffer::new();
    b.seek(512 - 17).unwrap();
    assert_eq!(r.write(&mut b), Ok(17));
    b.seek(512 - 17).unwrap();
    assert_eq!(DnsRecord::read(&mut b), Err(BufferError::OutOfBounds));
    round_trip(&r, 512 - 18);
}

#[test]
fn record_read_ignores_the_length_of_known_kinds() {
    let mut b =
        with_bytes(0, &[1, b'x', 0, 0, 1, 0, 1, 0, 0, 0, 9, 0xFF, 0xFF, 10, 20, 30, 40, 1, 2]);
    assert_eq!(
        DnsRecord::read(&mut b),
        Ok(DnsRecord::A { domain: "x".to_string(), addr: 0x0A141E28, ttl: 9 })
    );
    assert_eq!(b.pos, 17);
}

#[test]
fn record_read_drops_the_class() {
    let mut b = with_bytes(0, &[0, 0, 1, 0xAA, 0xBB, 0, 0, 0, 9, 0, 4, 10, 20, 30, 40]);
    assert_eq!(
        DnsRecord::read(&mut b),
        Ok(DnsRecord::A { domain: "".to_string(), addr: 0x0A141E28, ttl: 9 })
    );
}

#[test]
fn unknown_record_is_passed_over_by_its_length() {
    let mut b = with_bytes(0, &[1, b'X', 0, 0, 16, 0, 1, 0, 0, 1, 0, 0, 5, 9, 9, 9, 9, 9, 77]);
    assert_eq!(
        DnsRecord::read(&mut b),
        Ok(DnsRecord::UNKNOWN { domain: "x".to_string(), qtype: 16, data_len: 5, ttl: 256 })
    );
    assert_eq!(b.pos, 18);
}

#[test]
fn unknown_record_may_end_with_the_buffer() {
    let mut b = with_bytes(499, &[0, 0, 99, 0, 1, 0, 0, 0, 0, 0, 2]);
    b.pos = 499;
    assert_eq!(
        DnsRecord::read(&mut b),
        Ok(DnsRecord::UNKNOWN { domain: "".to_string(), qtype: 99, data_len: 2, ttl: 0 })
    );
    assert_eq!(b.pos, 512);
}

#[test]
fn unknown_record_that_reaches_beyond_the_buffer_is_overflow() {
    let mut b = with_bytes(499, &[0, 0, 99, 0, 1, 0, 0, 0, 0, 0, 3]);
    b.pos = 499;
    assert_eq!(DnsRecord::read(&mut b), Err(BufferError::Overflow));
    assert_eq!(b.pos, 510);
}

#[test]
fn record_read_failures() {
    // The buffer ends within the fixed fields.
    let mut b = with_bytes(505, &[1, b'x', 0, 0, 1, 0, 1]);
    b.pos = 505;
    assert_eq!(DnsRecord::read(&mut b), Err(BufferError::BufferOverflow));
    assert_eq!(b.pos, 512);
    // The buffer ends within the address.
    let mut b = with_bytes(498, &[0, 0, 1, 0, 1, 0, 0, 0, 0, 0, 4, 1, 2, 3]);
    b.pos = 498;
    assert_eq!(DnsRecord::read(&mut b), Err(BufferError::BufferOverflow));
    // The owner's name is a pointer to itself.
    let mut b = with_bytes(0, &[0xC0, 0]);
    assert_eq!(DnsRecord::read(&mut b), Err(BufferError::TooManyJumps));
    // The host's name leaves the buffer.
    let mut b = with_bytes(0, &[0, 0, 2, 0, 1, 0, 0, 0, 0, 0, 2, 0xFF, 0xFF]);
    assert_eq!(DnsRecord::read(&mut b), Err(BufferError::OutOfBounds));
}

#[test]
fn record_read_follows_pointers_in_both_names() {
    let mut b = with_bytes(0, &[3, b'c', b'o', b'm', 0]);
    b.buf[20..37].copy_from_slice(&[
        0xC0, 0, 0, 15, 0, 1, 0, 0, 0, 1, 0, 7, 0, 5, 2, b'm', b'x',
    ]);
    b.buf[37] = 0xC0;
    b.buf[38] = 0;
    b.pos = 20;
    assert_eq!(
        DnsRecord::read(&mut b),
        Ok(DnsRecord::MX {
            domain: "com".to_string(),
            priority: 5,
            host: "mx.com".to_string(),
            ttl: 1
        })
    );
    assert_eq!(b.pos, 39);
}

#[test]
fn record_write_failures() {
    let r = DnsRecord::A { domain: "x".repeat(64), addr: 1, ttl: 1 };
    let mut b = BytePacketBuffer::new();
    assert_eq!(r.write(&mut b), Err(BufferError::LabelTooLong));
    assert_eq!(b.pos, 0);

    let r = DnsRecord::NS { domain: "x".to_string(), host: "y".repeat(64), ttl: 1 };
    let mut b = BytePacketBuffer::new();
    assert_eq!(r.write(&mut b), Err(BufferError::LabelTooLong));
    assert_eq!(b.pos, 13);
    assert_eq!(&b.buf[0..13], &[1u8, b'x', 0, 0, 2, 0, 1, 0, 0, 0, 1, 0, 0][..]);

    let r = DnsRecord::MX { domain: "x".to_string(), priority: 1, host: "y".to_string(), ttl: 1 };
    let mut b = BytePacketBuffer::new();
    b.seek(512 - 17).unwrap();
    assert_eq!(r.write(&mut b), Err(BufferError::EndOfBuffer));
    assert_eq!(b.pos, 512);
    // The length is still the zero that was written first.
    assert_eq!(&b.buf[506..512], &[0u8, 0, 0, 1, 1, b'y'][..]);

    let r = DnsRecord::AAAA { domain: "x".to_string(), addr: 1, ttl: 1 };
    b.seek(512 - 28).unwrap();
    assert_eq!(r.write(&mut b), Err(BufferError::EndOfBuffer));
    b.seek(512 - 29).unwrap();
    assert_eq!(r.write(&mut b), Ok(29));
}
