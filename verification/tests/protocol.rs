//! End-to-end exercises of the protocol engine over the in-memory stream,
//! and of the checksum and encoder arithmetic.

use roboclaw::{calculate_encoder, get_bits, reconstruct};
use roboclaw::{Connection, ConnectionError, Crc16, MockStream};

#[test]
fn crc() {
    let mut crc: Crc16 = Crc16::new();

    crc.update(255);

    assert_eq!(crc.get(), 7920);

    crc.clear();
    crc.update(255);
    assert_eq!(crc.get(), 7920);
}

#[test]
fn encoder() {
    let read_result: Vec<u32> = vec![12_000_000, 0b10000000];
    let mut encoder_value: i64 = 1_000_000_000;

    encoder_value = calculate_encoder(encoder_value, read_result);

    println!("{}", encoder_value);
    assert!(true);
}

#[test]
fn encoder_underflow_concrete() {
    let v = reconstruct(1_000_000_000, 12_000_000, 0b1000_0000);
    assert_eq!(v, -3_282_967_296i64);
}

#[test]
fn encoder_overflow_concrete() {
    let v = reconstruct(1_000_000_000, 12_000_000, 0b0010_0000);
    assert_eq!(v, 1_000_000_000i64 + 12_000_000 + 0x1_0000_0000);
    assert_eq!(v, 5_306_967_296i64);
}

#[test]
fn encoder_no_flags() {
    let v = reconstruct(1_000_000_000, 12_000_000, 0);
    assert_eq!(v, 1_012_000_000i64);
}

#[test]
fn encoder_sign_extends_delta() {
    // 0xFFFFFFFF is -1 as a 32-bit two's-complement value.
    let v = reconstruct(500, 0xFFFF_FFFF, 0);
    assert_eq!(v, 499);
    // Both flags together cancel out.
    let v2 = reconstruct(500, 1, 0b1010_0000);
    assert_eq!(v2, 501);
}

#[test]
fn encoder_via_field_vector() {
    let v = calculate_encoder(1_000_000_000, vec![12_000_000, 0b1000_0000]);
    assert_eq!(v, -3_282_967_296i64);
}

#[test]
fn bits_most_significant_first() {
    assert_eq!(get_bits(0b1010_0000), [1, 0, 1, 0, 0, 0, 0, 0]);
    assert_eq!(get_bits(0xFF), [1, 1, 1, 1, 1, 1, 1, 1]);
    assert_eq!(get_bits(0x01), [0, 0, 0, 0, 0, 0, 0, 1]);
}

#[test]
fn write_frames_magnitude_selected_widths() {
    // Payload 5 -> 1 byte, 300 -> 2 bytes, 70000 -> 4 bytes; trailer is the
    // CRC-16 of everything before it.
    let stream = MockStream::new(vec![0xFF]);
    let mut conn = Connection::new(stream, 3, false);
    let r = conn.write(0x80, 0, &[5, 300, 70000]);
    assert!(r.is_ok());
    assert_eq!(
        conn.stream().written().as_slice(),
        &[0x80, 0x00, 5, 0x01, 0x2C, 0x00, 0x01, 0x11, 0x70, 0x79, 0xCF][..]
    );
}

#[test]
fn write_retry_exhaustion() {
    // A stream that never acknowledges: exactly `retries` full frames go
    // out, each with a trailer computed from a freshly cleared checksum,
    // and the result is Timeout carrying the retry count.
    let stream = MockStream::new(vec![]);
    let mut conn = Connection::new(stream, 3, false);
    let r = conn.write(0x80, 0, &[5, 300, 70000]);
    assert_eq!(r, Err(ConnectionError::Timeout(3)));
    let frame: &[u8] = &[0x80, 0x00, 5, 0x01, 0x2C, 0x00, 0x01, 0x11, 0x70, 0x79, 0xCF];
    let expected: Vec<u8> = frame.iter().chain(frame.iter()).chain(frame.iter()).copied().collect();
    assert_eq!(conn.stream().written().as_slice(), expected.as_slice());
}

#[test]
fn write_wrong_ack_is_failed_attempt() {
    // A byte other than 0xFF does not acknowledge; the budget runs out.
    let stream = MockStream::new(vec![0x00]);
    let mut conn = Connection::new(stream, 1, false);
    let r = conn.write(0x80, 0, &[1]);
    assert_eq!(r, Err(ConnectionError::Timeout(1)));
}

#[test]
fn write_io_fault_aborts() {
    // An empty payload still frames address, command and trailer; a broken
    // read side surfaces Io at the acknowledgement, with no retry.
    let mut stream = MockStream::new(vec![]);
    stream.break_reads();
    let mut conn = Connection::new(stream, 3, false);
    let r = conn.write(0x80, 0, &[]);
    assert_eq!(r, Err(ConnectionError::Io));
}

#[test]
fn read_two_single_byte_fields() {
    // Script: two field bytes and a trailer that satisfies the engine's
    // comparison, which feeds the trailer bytes into the checksum first.
    let stream = MockStream::new(vec![1, 2, 0x11, 0xC3]);
    let mut conn = Connection::new(stream, 3, false);
    let r = conn.read(0x80, 16, 2, 1);
    assert_eq!(r, Ok(vec![1, 2]));
    assert_eq!(conn.stream().written().as_slice(), &[0x80, 16][..]);
}

#[test]
fn read_decodes_big_endian_four_byte_field() {
    let stream = MockStream::new(vec![0, 183, 27, 0, 0x19, 0x31]);
    let mut conn = Connection::new(stream, 3, false);
    let r = conn.read(0x80, 16, 1, 4);
    assert_eq!(r, Ok(vec![12_000_000]));
}

#[test]
fn read_checksum_mismatch() {
    // The fields decode fine but the trailer disagrees: no values come
    // back, only CrcMismatch.
    let stream = MockStream::new(vec![1, 2, 0x00, 0x00]);
    let mut conn = Connection::new(stream, 3, false);
    let r = conn.read(0x80, 16, 2, 1);
    assert_eq!(r, Err(ConnectionError::CrcMismatch));
}

#[test]
fn read_checksum_mismatch_retried_when_configured() {
    // With the retry-on-mismatch policy, a bad trailer counts as a failed
    // attempt; the budget then runs out as a timeout.
    let stream = MockStream::new(vec![1, 2, 0x00, 0x00]);
    let mut conn = Connection::new(stream, 2, true);
    let r = conn.read(0x80, 16, 2, 1);
    assert_eq!(r, Err(ConnectionError::Timeout(2)));
}

#[test]
fn read_retry_exhaustion_sends_header_each_attempt() {
    let stream = MockStream::new(vec![]);
    let mut conn = Connection::new(stream, 2, false);
    let r = conn.read(0x80, 16, 2, 1);
    assert_eq!(r, Err(ConnectionError::Timeout(2)));
    assert_eq!(conn.stream().written().as_slice(), &[0x80, 16, 0x80, 16][..]);
}

#[test]
fn read_invalid_field_width() {
    let stream = MockStream::new(vec![1, 2, 3]);
    let mut conn = Connection::new(stream, 3, false);
    let r = conn.read(0x80, 16, 1, 3);
    assert_eq!(r, Err(ConnectionError::InvalidValue(3)));
    // Nothing was sent or consumed.
    assert_eq!(conn.stream().written().len(), 0);
    assert_eq!(conn.stream().unread(), 3);
}

#[test]
fn read_io_fault_aborts() {
    let mut stream = MockStream::new(vec![]);
    stream.break_reads();
    let mut conn = Connection::new(stream, 3, false);
    let r = conn.read(0x80, 16, 1, 1);
    assert_eq!(r, Err(ConnectionError::Io));
}

#[test]
fn checksum_accumulates_across_bytes() {
    // Feeding bytes one at a time or as a run gives the same register.
    let mut a = Crc16::new();
    a.update(0x80);
    a.update(0x00);
    a.update(5);
    let mut b = Crc16::new();
    b.update_bytes(&[0x80, 0x00, 5]);
    assert_eq!(a.get(), b.get());
}
