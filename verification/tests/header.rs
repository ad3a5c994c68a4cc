use dns_server::buffer_error::BufferError;
use dns_server::byte_packet_buffer::BytePacketBuffer;
use dns_server::dns_header::DnsHeader;
use dns_server::query_type::QueryType;
use dns_server::result_code::ResultCode;

#[test]
fn query_type_numbers() {
    assert_eq!(QueryType::A.to_num(), 1);
    assert_eq!(QueryType::NS.to_num(), 2);
    assert_eq!(QueryType::CNAME.to_num(), 5);
    assert_eq!(QueryType::MX.to_num(), 15);
    assert_eq!(QueryType::AAAA.to_num(), 28);
    assert_eq!(QueryType::UNKNOWN(99).to_num(), 99);
    assert_eq!(QueryType::from_num(1), QueryType::A);
    assert_eq!(QueryType::from_num(2), QueryType::NS);
    assert_eq!(QueryType::from_num(5), QueryType::CNAME);
    assert_eq!(QueryType::from_num(15), QueryType::MX);
    assert_eq!(QueryType::from_num(28), QueryType::AAAA);
    assert_eq!(QueryType::from_num(0), QueryType::UNKNOWN(0));
    assert_eq!(QueryType::from_num(16), QueryType::UNKNOWN(16));
    assert_eq!(QueryType::from_num(65535), QueryType::UNKNOWN(65535));
}

#[test]
fn query_type_number_round_trip() {
    for n in 0..=u16::MAX {
        assert_eq!(QueryType::from_num(n).to_num(), n);
    }
}

#[test]
fn result_code_numbers() {
    assert_eq!(ResultCode::from_num(0), ResultCode::NOERROR);
    assert_eq!(ResultCode::from_num(1), ResultCode::FORMERR);
    assert_eq!(ResultCode::from_num(2), ResultCode::SERVFAIL);
    assert_eq!(ResultCode::from_num(3), ResultCode::NXDOMAIN);
    assert_eq!(ResultCode::from_num(4), ResultCode::NOTIMP);
    assert_eq!(ResultCode::from_num(5), ResultCode::REFUSED);
    assert_eq!(ResultCode::from_num(6), ResultCode::UNKNOWN(6));
    assert_eq!(ResultCode::from_num(15), ResultCode::UNKNOWN(15));
    for n in 0..=u8::MAX {
        assert_eq!(ResultCode::from_num(n).to_num(), n);
    }
}

#[test]
fn new_header_is_blank() {
    let h = DnsHeader::new();
    assert_eq!(h.id, 0);
    assert!(!h.recursion_desired && !h.truncated_message && !h.authoritative_answer);
    assert_eq!(h.opcode, 0);
    assert!(!h.response);
    assert_eq!(h.rescode, ResultCode::NOERROR);
    assert!(!h.checking_disabled && !h.authed_data && !h.z && !h.recursion_available);
    assert_eq!((h.questions, h.answers, h.authoritative_entries, h.resource_entries), (0, 0, 0, 0));
}

fn sample() -> DnsHeader {
    let mut h = DnsHeader::new();
    h.id = 0x1234;
    h.recursion_desired = true;
    h.opcode = 2;
    h.response = true;
    h.rescode = ResultCode::NXDOMAIN;
    h.z = true;
    h.recursion_available = true;
    h.questions = 1;
    h.answers = 2;
    h.authoritative_entries = 3;
    h.resource_entries = 0x0104;
    h
}

#[test]
fn header_is_twelve_bytes_bit_for_bit() {
    let mut b = BytePacketBuffer::new();
    sample().write(&mut b).unwrap();
    assert_eq!(b.pos, 12);
    let want = [0x12u8, 0x34, 0x91, 0xC3, 0, 1, 0, 2, 0, 3, 1, 4];
    assert_eq!(&b.buf[0..12], &want[..]);
}

#[test]
fn each_flag_has_its_bit() {
    let cases: [(fn(&mut DnsHeader), u8, u8); 8] = [
        (|h| h.recursion_desired = true, 0x01, 0),
        (|h| h.truncated_message = true, 0x02, 0),
        (|h| h.authoritative_answer = true, 0x04, 0),
        (|h| h.response = true, 0x80, 0),
        (|h| h.checking_disabled = true, 0, 0x10),
        (|h| h.authed_data = true, 0, 0x20),
        (|h| h.z = true, 0, 0x40),
        (|h| h.recursion_available = true, 0, 0x80),
    ];
    for (set, high, low) in cases {
        let mut h = DnsHeader::new();
        set(&mut h);
        let mut b = BytePacketBuffer::new();
        h.write(&mut b).unwrap();
        assert_eq!((b.buf[2], b.buf[3]), (high, low));
        b.seek(0).unwrap();
        let mut back = DnsHeader::new();
        back.read(&mut b).unwrap();
        assert_eq!(back, h);
    }
}

#[test]
fn header_round_trip() {
    let mut b = BytePacketBuffer::new();
    b.seek(100).unwrap();
    sample().write(&mut b).unwrap();
    b.seek(100).unwrap();
    let mut back = DnsHeader::new();
    back.read(&mut b).unwrap();
    assert_eq!(back, sample());
    assert_eq!(b.pos, 112);
}

#[test]
fn header_round_trip_for_every_code_and_opcode() {
    for code in 0..16u8 {
        for opcode in 0..16u8 {
            let mut h = sample();
            h.rescode = ResultCode::from_num(code);
            h.opcode = opcode;
            let mut b = BytePacketBuffer::new();
            h.write(&mut b).unwrap();
            b.seek(0).unwrap();
            let mut back = DnsHeader::new();
            back.read(&mut b).unwrap();
            assert_eq!(back, h);
        }
    }
}

#[test]
fn header_fields_are_cut_to_their_width() {
    let mut h = DnsHeader::new();
    h.opcode = 0xFF;
    h.rescode = ResultCode::UNKNOWN(0xF7);
    let mut b = BytePacketBuffer::new();
    h.write(&mut b).unwrap();
    assert_eq!(b.buf[2], 0x78);
    assert_eq!(b.buf[3], 0x07);
}

#[test]
fn header_read_decodes_unknown_codes() {
    let mut b = BytePacketBuffer::new();
    b.buf[3] = 0x0B;
    let mut h = DnsHeader::new();
    h.read(&mut b).unwrap();
    assert_eq!(h.rescode, ResultCode::UNKNOWN(11));
}

#[test]
fn header_read_near_the_end_fails_and_keeps_the_header() {
    let mut b = BytePacketBuffer::new();
    b.seek(501).unwrap();
    let mut h = sample();
    assert_eq!(h.read(&mut b), Err(BufferError::BufferOverflow));
    assert_eq!(h, sample());
    assert_eq!(b.pos, 512);
    b.seek(500).unwrap();
    assert_eq!(h.read(&mut b), Ok(()));
    assert_eq!(h, DnsHeader::new());
}

#[test]
fn header_write_near_the_end_fails() {
    let mut b = BytePacketBuffer::new();
    b.seek(501).unwrap();
    assert_eq!(sample().write(&mut b), Err(BufferError::EndOfBuffer));
    assert_eq!(b.pos, 512);
    assert_eq!(&b.buf[501..505], &[0x12u8, 0x34, 0x91, 0xC3][..]);
}
