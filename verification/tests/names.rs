use dns_server::buffer_error::BufferError;
use dns_server::byte_packet_buffer::BytePacketBuffer;
use dns_server::name::push_label;

fn with_bytes(at: usize, bytes: &[u8]) -> BytePacketBuffer {
    let mut b = BytePacketBuffer::new();
    b.buf[at..at + bytes.len()].copy_from_slice(bytes);
    b
}

fn read_at(b: &mut BytePacketBuffer, at: usize) -> Result<String, BufferError> {
    b.pos = at;
    let mut out = String::new();
    match b.read_qname(&mut out) {
        Ok(_) => Ok(out),
        Err(e) => Err(e),
    }
}

#[test]
fn write_qname_lays_out_labels() {
    let mut b = BytePacketBuffer::new();
    b.write_qname("www.example.com").unwrap();
    let want = [
        3u8, b'w', b'w', b'w', 7, b'e', b'x', b'a', b'm', b'p', b'l', b'e', 3, b'c', b'o', b'm', 0,
    ];
    assert_eq!(&b.buf[0..17], &want[..]);
    assert_eq!(b.pos, 17);
}

#[test]
fn write_qname_of_the_empty_name_is_two_zeros() {
    let mut b = BytePacketBuffer::new();
    b.buf[0] = 9;
    b.buf[1] = 9;
    b.write_qname("").unwrap();
    assert_eq!(b.pos, 2);
    assert_eq!(&b.buf[0..2], &[0u8, 0][..]);
}

#[test]
fn write_qname_keeps_empty_labels() {
    let mut b = BytePacketBuffer::new();
    b.write_qname("a..b.").unwrap();
    assert_eq!(&b.buf[0..7], &[1u8, b'a', 0, 1, b'b', 0, 0][..]);
    assert_eq!(b.pos, 7);
}

#[test]
fn write_qname_keeps_the_case() {
    let mut b = BytePacketBuffer::new();
    b.write_qname("Ab").unwrap();
    assert_eq!(&b.buf[0..4], &[2u8, b'A', b'b', 0][..]);
}

#[test]
fn label_of_63_bytes_is_written() {
    let label = "a".repeat(63);
    let mut b = BytePacketBuffer::new();
    b.write_qname(&label).unwrap();
    assert_eq!(b.buf[0], 63);
    assert_eq!(b.buf[63], b'a');
    assert_eq!(b.buf[64], 0);
    assert_eq!(b.pos, 65);
    assert_eq!(read_at(&mut b, 0), Ok(label));
}

#[test]
fn label_of_64_bytes_is_too_long() {
    let label = "a".repeat(64);
    let mut b = BytePacketBuffer::new();
    assert_eq!(b.write_qname(&label).err(), Some(BufferError::LabelTooLong));
    assert_eq!(b.pos, 0);
    assert!(b.buf.iter().all(|x| *x == 0));
}

#[test]
fn label_length_counts_bytes_not_characters() {
    // 32 two-byte characters are 64 bytes.
    let label = "é".repeat(32);
    let mut b = BytePacketBuffer::new();
    assert_eq!(b.write_qname(&label).err(), Some(BufferError::LabelTooLong));
    let label = "é".repeat(31);
    let mut b = BytePacketBuffer::new();
    b.write_qname(&label).unwrap();
    assert_eq!(b.buf[0], 62);
}

#[test]
fn too_long_label_after_others_leaves_them_written() {
    let name = format!("ab.{}.c", "x".repeat(64));
    let mut b = BytePacketBuffer::new();
    assert_eq!(b.write_qname(&name).err(), Some(BufferError::LabelTooLong));
    assert_eq!(&b.buf[0..4], &[2u8, b'a', b'b', 0][..]);
    assert_eq!(b.pos, 3);
}

#[test]
fn write_qname_at_the_end_is_end_of_buffer() {
    let mut b = BytePacketBuffer::new();
    b.seek(509).unwrap();
    assert_eq!(b.write_qname("abc").err(), Some(BufferError::EndOfBuffer));
    assert_eq!(&b.buf[509..512], &[3u8, b'a', b'b'][..]);
    assert_eq!(b.pos, 512);
}

#[test]
fn buffer_end_comes_before_a_later_long_label() {
    let name = format!("abc.{}", "x".repeat(64));
    let mut b = BytePacketBuffer::new();
    b.seek(510).unwrap();
    assert_eq!(b.write_qname(&name).err(), Some(BufferError::EndOfBuffer));
}

#[test]
fn long_label_comes_before_a_full_buffer_behind_it() {
    let name = format!("abc.{}", "x".repeat(64));
    let mut b = BytePacketBuffer::new();
    b.seek(508).unwrap();
    assert_eq!(b.write_qname(&name).err(), Some(BufferError::LabelTooLong));
    assert_eq!(b.pos, 512);
}

#[test]
fn read_qname_joins_labels_with_dots() {
    let mut b = with_bytes(0, &[3, b'w', b'w', b'w', 2, b'a', b'b', 0]);
    assert_eq!(read_at(&mut b, 0), Ok("www.ab".to_string()));
    assert_eq!(b.pos, 8);
}

#[test]
fn read_qname_of_the_root_is_empty() {
    let mut b = BytePacketBuffer::new();
    assert_eq!(read_at(&mut b, 0), Ok(String::new()));
    assert_eq!(b.pos, 1);
}

#[test]
fn read_qname_appends_to_what_is_there() {
    let mut b = with_bytes(0, &[1, b'x', 1, b'y', 0]);
    let mut out = "seen:".to_string();
    b.read_qname(&mut out).unwrap();
    assert_eq!(out, "seen:x.y");
}

#[test]
fn read_qname_lowers_the_case() {
    let mut b = with_bytes(0, &[3, b'W', b'w', b'W', 3, b'C', b'O', b'M', 0]);
    assert_eq!(read_at(&mut b, 0), Ok("www.com".to_string()));
}

#[test]
fn read_qname_lowers_letters_beyond_ascii() {
    // "ÄB" in UTF-8.
    let mut b = with_bytes(0, &[3, 0xC3, 0x84, b'B', 0]);
    assert_eq!(read_at(&mut b, 0), Ok("äb".to_string()));
}

#[test]
fn read_qname_replaces_bytes_that_are_no_text() {
    let mut b = with_bytes(0, &[2, 0xFF, b'A', 0]);
    assert_eq!(read_at(&mut b, 0), Ok("\u{FFFD}a".to_string()));
}

#[test]
fn name_round_trip_gives_the_lower_case_name() {
    let mut b = BytePacketBuffer::new();
    b.seek(20).unwrap();
    b.write_qname("Mail.Example.ORG").unwrap();
    let end = b.pos;
    assert_eq!(read_at(&mut b, 20), Ok("mail.example.org".to_string()));
    assert_eq!(b.pos, end);
}

#[test]
fn name_round_trip_lowers_each_label_on_its_own() {
    // A capital sigma at the end of a word is lowered to the final form,
    // and the end of a label is the end of a word.
    let mut b = BytePacketBuffer::new();
    b.write_qname("aΣ.b").unwrap();
    assert_eq!(read_at(&mut b, 0), Ok("aς.b".to_string()));
}

#[test]
fn name_that_ends_with_the_buffer_cannot_be_read() {
    let mut b = BytePacketBuffer::new();
    b.seek(507).unwrap();
    b.write_qname("abc").unwrap();
    assert_eq!(b.pos, 512);
    assert_eq!(read_at(&mut b, 507), Err(BufferError::OutOfBounds));
    assert_eq!(b.pos, 507);
    let mut b = BytePacketBuffer::new();
    b.seek(506).unwrap();
    b.write_qname("abc").unwrap();
    assert_eq!(read_at(&mut b, 506), Ok("abc".to_string()));
    assert_eq!(b.pos, 511);
}

#[test]
fn read_qname_with_cursor_at_the_end_is_out_of_bounds() {
    let mut b = BytePacketBuffer::new();
    assert_eq!(read_at(&mut b, 512), Err(BufferError::OutOfBounds));
    assert_eq!(read_at(&mut b, 9999), Err(BufferError::OutOfBounds));
}

#[test]
fn label_that_leaves_the_buffer_is_out_of_bounds() {
    let mut b = with_bytes(508, &[1, b'a', 5, b'b']);
    let mut out = String::new();
    b.pos = 508;
    assert_eq!(b.read_qname(&mut out).err(), Some(BufferError::OutOfBounds));
    assert_eq!(out, "a");
    assert_eq!(b.pos, 508);
}

#[test]
fn length_byte_with_one_top_bit_is_a_label() {
    let mut b = BytePacketBuffer::new();
    b.buf[0] = 64;
    for i in 1..65 {
        b.buf[i] = b'A';
    }
    assert_eq!(read_at(&mut b, 0), Ok("a".repeat(64)));
    assert_eq!(b.pos, 66);
}

#[test]
fn pointer_reads_the_name_it_points_to() {
    let mut b = with_bytes(100, &[3, b'f', b'o', b'o', 3, b'c', b'o', b'm', 0]);
    b.buf[200] = 0xC0;
    b.buf[201] = 100;
    assert_eq!(read_at(&mut b, 200), Ok("foo.com".to_string()));
    assert_eq!(b.pos, 202);
    assert_eq!(read_at(&mut b, 100), Ok("foo.com".to_string()));
    assert_eq!(b.pos, 109);
}

#[test]
fn pointer_behind_labels_reads_the_rest() {
    let mut b = with_bytes(12, &[3, b'c', b'o', b'm', 0]);
    b.buf[40..46].copy_from_slice(&[3, b'w', b'w', b'w', 0xC0, 12]);
    assert_eq!(read_at(&mut b, 40), Ok("www.com".to_string()));
    assert_eq!(b.pos, 46);
}

#[test]
fn pointer_offset_uses_fourteen_bits() {
    let mut b = with_bytes(0x1FF - 1, &[1, b'z']);
    // The byte at 0x1FF is the label's text; the name goes on at 0x200,
    // outside the buffer.
    b.buf[0] = 0xC1;
    b.buf[1] = 0xFE;
    let mut out = String::new();
    assert_eq!(b.read_qname(&mut out).err(), Some(BufferError::OutOfBounds));
    assert_eq!(out, "z");
    assert_eq!(b.pos, 2);
    // A forward pointer to a name that ends in time.
    let mut b = with_bytes(0x1F0, &[1, b'q', 0]);
    b.buf[0] = 0xC1;
    b.buf[1] = 0xF0;
    assert_eq!(read_at(&mut b, 0), Ok("q".to_string()));
}

#[test]
fn pointer_outside_the_buffer_is_out_of_bounds() {
    let mut b = BytePacketBuffer::new();
    b.buf[0] = 0xFF;
    b.buf[1] = 0xFF;
    assert_eq!(read_at(&mut b, 0), Err(BufferError::OutOfBounds));
    assert_eq!(b.pos, 2);
}

#[test]
fn first_pointer_needs_room_for_the_cursor() {
    let mut b = with_bytes(0, &[1, b'a', 0]);
    b.buf[510] = 0xC0;
    b.buf[511] = 0;
    assert_eq!(read_at(&mut b, 510), Err(BufferError::OutOfBounds));
    assert_eq!(b.pos, 510);
    // Reached by way of another pointer, the same two bytes are followed.
    b.buf[100] = 0xC1;
    b.buf[101] = 0xFE;
    assert_eq!(read_at(&mut b, 100), Ok("a".to_string()));
    assert_eq!(b.pos, 102);
}

fn chain(links: usize) -> BytePacketBuffer {
    // The name "a" at 100, and pointers at 90, 80, ... each to the one
    // before.
    let mut b = with_bytes(100, &[1, b'a', 0]);
    for i in 0..links {
        let at = 90 - 10 * i;
        b.buf[at] = 0xC0;
        b.buf[at + 1] = (at + 10) as u8;
    }
    b
}

#[test]
fn chain_of_five_pointers_is_read() {
    let mut b = chain(5);
    assert_eq!(read_at(&mut b, 50), Ok("a".to_string()));
    assert_eq!(b.pos, 52);
}

#[test]
fn chain_of_six_pointers_is_too_many_jumps() {
    let mut b = chain(6);
    assert_eq!(read_at(&mut b, 40), Err(BufferError::TooManyJumps));
    assert_eq!(b.pos, 42);
    assert_eq!(read_at(&mut b, 50), Ok("a".to_string()));
}

#[test]
fn pointer_to_itself_is_too_many_jumps() {
    let mut b = BytePacketBuffer::new();
    b.buf[10] = 0xC0;
    b.buf[11] = 10;
    assert_eq!(read_at(&mut b, 10), Err(BufferError::TooManyJumps));
}

#[test]
fn push_label_puts_dots_between_labels() {
    let mut out = String::new();
    push_label(&mut out, true, "www");
    assert_eq!(out, "www");
    push_label(&mut out, false, "example");
    assert_eq!(out, "www.example");
    push_label(&mut out, true, "x");
    assert_eq!(out, "www.examplex");
}
