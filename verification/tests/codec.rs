use message_queue::codec::{copy_range, decode_header, decode_record, decode_text, encode_record};
use message_queue::codec::{Header, HeaderRead, QueueError, Record};
use message_queue::codec::{HEADER_SIZE, MAX_MESSAGE_SIZE, PROCESSED, UNPROCESSED};
use message_queue::endian::{push_u32_le, push_u64_le, read_u32_le, read_u64_le};

#[test]
fn constants_have_the_documented_values() {
    assert_eq!(MAX_MESSAGE_SIZE, 256 * 1024);
    assert_eq!(HEADER_SIZE, 1 + 8 + 4);
    assert_eq!(UNPROCESSED, 0);
    assert_eq!(PROCESSED, 1);
}

#[test]
fn u32_is_written_least_significant_byte_first() {
    let mut out = vec![0xaa];
    push_u32_le(&mut out, 0x01020304);
    assert_eq!(out, vec![0xaa, 4, 3, 2, 1]);
    assert_eq!(out[1..], 0x01020304u32.to_le_bytes());
}

#[test]
fn u64_is_written_least_significant_byte_first() {
    let mut out = Vec::new();
    push_u64_le(&mut out, 0x0102030405060708);
    assert_eq!(out, vec![8, 7, 6, 5, 4, 3, 2, 1]);
    let mut max = Vec::new();
    push_u64_le(&mut max, u64::MAX);
    assert_eq!(max, vec![0xff; 8]);
}

#[test]
fn integers_read_back_as_written() {
    for x in [0u64, 1, 255, 256, 65535, 1700000000, 1 << 40, u64::MAX - 1, u64::MAX] {
        let mut out = vec![9, 9, 9];
        push_u64_le(&mut out, x);
        assert_eq!(out[3..], x.to_le_bytes());
        assert_eq!(read_u64_le(&out, 3), x);
    }
    for x in [0u32, 1, 255, 256, 262144, 262145, u32::MAX] {
        let mut out = vec![9];
        push_u32_le(&mut out, x);
        assert_eq!(out[1..], x.to_le_bytes());
        assert_eq!(read_u32_le(&out, 1), x);
    }
}

#[test]
fn encoded_record_has_header_then_payload() {
    let out = encode_record(UNPROCESSED, 258, b"hi");
    assert_eq!(out, vec![0, 2, 1, 0, 0, 0, 0, 0, 0, 2, 0, 0, 0, b'h', b'i']);
    assert_eq!(out.len(), 1 + 8 + 4 + 2);
}

#[test]
fn encoded_record_of_the_largest_payload() {
    let payload = vec![7u8; MAX_MESSAGE_SIZE];
    let out = encode_record(PROCESSED, u64::MAX, &payload);
    assert_eq!(out.len(), 13 + MAX_MESSAGE_SIZE);
    assert_eq!(out[0], 1);
    assert_eq!(out[1..9], [0xff; 8]);
    assert_eq!(out[9..13], [0, 0, 4, 0]);
    assert_eq!(out[13..], payload[..]);
}

#[test]
fn decoding_gives_back_what_was_encoded() {
    let mut log = encode_record(UNPROCESSED, 1700000000, "primero".as_bytes());
    let second = log.len() as u64;
    log.extend(encode_record(PROCESSED, 42, b""));
    let end = log.len() as u64;

    assert_eq!(
        decode_record(&log, 0),
        Ok(Some(Record { state: 0, timestamp: 1700000000, payload: b"primero".to_vec() }))
    );
    assert_eq!(
        decode_record(&log, second),
        Ok(Some(Record { state: 1, timestamp: 42, payload: Vec::new() }))
    );
    assert_eq!(decode_record(&log, end), Ok(None));
    assert_eq!(decode_record(&log, end + 100), Ok(None));
}

#[test]
fn header_is_read_at_the_given_offset() {
    let mut log = vec![0xee, 0xee];
    log.extend(encode_record(PROCESSED, 77, b"abc"));
    assert_eq!(
        decode_header(&log, 2),
        HeaderRead::Header(Header { state: 1, timestamp: 77, size: 3 })
    );
}

#[test]
fn short_header_is_the_end_of_the_log() {
    let log = encode_record(UNPROCESSED, 1, b"abc");
    for cut in 0..13 {
        assert_eq!(decode_header(&log[..cut], 0), HeaderRead::EndOfLog);
        assert_eq!(decode_record(&log[..cut], 0), Ok(None));
    }
    assert_eq!(decode_header(&log, 4), HeaderRead::EndOfLog);
    assert_eq!(decode_header(&log, 16), HeaderRead::EndOfLog);
    assert_eq!(decode_header(&log, 17), HeaderRead::EndOfLog);
    assert_eq!(decode_header(&log, u64::MAX), HeaderRead::EndOfLog);
}

#[test]
fn size_at_the_limit_is_read_and_one_more_is_corrupt() {
    let at_limit = vec![0, 0, 0, 0, 0, 0, 0, 0, 0, 0, 0, 4, 0];
    assert_eq!(
        decode_header(&at_limit, 0),
        HeaderRead::Header(Header { state: 0, timestamp: 0, size: 262144 })
    );
    assert_eq!(decode_record(&at_limit, 0), Err(QueueError::TruncatedPayload));

    let over = vec![0, 0, 0, 0, 0, 0, 0, 0, 0, 1, 0, 4, 0];
    assert_eq!(decode_header(&over, 0), HeaderRead::Corrupt);
    assert_eq!(decode_record(&over, 0), Err(QueueError::CorruptRecord));
}

#[test]
fn short_payload_is_truncated() {
    let log = encode_record(UNPROCESSED, 1, b"abcdef");
    for cut in 13..log.len() {
        assert_eq!(decode_record(&log[..cut], 0), Err(QueueError::TruncatedPayload));
    }
    assert!(decode_record(&log, 0).is_ok());
}

#[test]
fn copy_range_copies_exactly_the_range() {
    let log = [10u8, 11, 12, 13, 14];
    assert_eq!(copy_range(&log, 1, 4), vec![11, 12, 13]);
    assert_eq!(copy_range(&log, 0, 5), log.to_vec());
    assert_eq!(copy_range(&log, 3, 3), Vec::<u8>::new());
}

#[test]
fn text_is_decoded_from_well_formed_utf8_only() {
    assert_eq!(decode_text("añadido €".as_bytes().to_vec()), Ok("añadido €".to_string()));
    assert_eq!(decode_text(Vec::new()), Ok(String::new()));
    assert_eq!(decode_text(vec![b'a', 0x80]), Err(QueueError::InvalidEncoding));
    assert_eq!(decode_text(vec![0xe2, 0x82]), Err(QueueError::InvalidEncoding));
    assert_eq!(decode_text(vec![0xf4, 0x90, 0x80, 0x80]), Err(QueueError::InvalidEncoding));
}
