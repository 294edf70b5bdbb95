use flowline::text::hex_dump;
use flowline::varint::{
    decode_many, decode_varint, decode_varint_at, encode_many, encode_varint, encode_varint_into,
    expected_byte_count, DecodeResult,
};

#[test]
fn decode_zero() {
    assert_eq!(decode_varint(&[0x00]).value, 0);
}

#[test]
fn decode_127() {
    assert_eq!(decode_varint(&[0x7F]).value, 127);
}

#[test]
fn decode_128_buggy() {
    let r = decode_varint(&[0x80, 0x01]);
    assert_eq!(r.value, 256);
    assert_eq!(r.bytes_read, 2);
}

#[test]
fn decode_300_buggy() {
    let r = decode_varint(&[0xAC, 0x02]);
    assert_eq!(r.value, 556);
    assert_eq!(r.bytes_read, 2);
}

#[test]
fn decode_many_values() {
    let values = decode_many(&[0x00, 0x7F, 0x80, 0x01]);
    assert_eq!(values.len(), 3);
    assert_eq!(values[0], 0);
    assert_eq!(values[1], 127);
}

#[test]
fn encode_zero() {
    assert_eq!(encode_varint(0), vec![0x00]);
}

#[test]
fn encode_single_byte_max() {
    assert_eq!(encode_varint(127), vec![0x7F]);
}

#[test]
fn encode_two_byte_min() {
    assert_eq!(encode_varint(128), vec![0x80, 0x01]);
}

#[test]
fn encode_300() {
    assert_eq!(encode_varint(300), vec![0xAC, 0x02]);
}

#[test]
fn encode_two_byte_max() {
    assert_eq!(encode_varint(16383), vec![0xFF, 0x7F]);
}

#[test]
fn encode_three_bytes() {
    assert_eq!(encode_varint(65535), vec![0xFF, 0xFF, 0x03]);
}

#[test]
fn encode_into_buffer() {
    let mut buf = [0u8; 16];
    let n = encode_varint_into(300, &mut buf, 0);
    assert_eq!(n, 2);
    assert_eq!(&buf[..2], &[0xAC, 0x02]);
}

#[test]
fn encode_many_values() {
    let values = vec![0, 127, 128, 300];
    let encoded = encode_many(&values);
    assert_eq!(encoded, vec![0x00, 0x7F, 0x80, 0x01, 0xAC, 0x02]);
}

#[test]
fn encode_into_keeps_rest_of_buffer() {
    let mut buf = [0xEEu8; 6];
    let n = encode_varint_into(16384, &mut buf, 2);
    assert_eq!(n, 3);
    assert_eq!(buf, [0xEE, 0xEE, 0x80, 0x80, 0x01, 0xEE]);
}

#[test]
fn encode_max_value_takes_ten_bytes() {
    let enc = encode_varint(u64::MAX);
    assert_eq!(enc.len(), 10);
    assert_eq!(enc[9], 0x01);
    assert_eq!(expected_byte_count(u64::MAX), 10);
}

#[test]
fn byte_counts_match_encodings() {
    for v in [0u64, 1, 127, 128, 255, 256, 300, 1000, 16383, 16384, 65535] {
        assert_eq!(expected_byte_count(v), encode_varint(v).len());
    }
    assert_eq!(expected_byte_count(0), 1);
    assert_eq!(expected_byte_count(16384), 3);
}

#[test]
fn decode_stops_at_ten_bytes() {
    let bytes = [0xFFu8; 12];
    let r = decode_varint(&bytes);
    assert_eq!(r.bytes_read, 10);
}

#[test]
fn decode_runs_to_end_without_terminator() {
    let r = decode_varint(&[0x81, 0x82]);
    assert_eq!(r, DecodeResult::new(1 + (2 << 8), 2));
}

#[test]
fn decode_at_offset() {
    let (value, next) = decode_varint_at(&[0x05, 0x7F, 0x03], 1);
    assert_eq!(value, 127);
    assert_eq!(next, 2);
}

#[test]
fn decode_empty_input() {
    assert_eq!(decode_varint(&[]), DecodeResult::new(0, 0));
    assert!(decode_many(&[]).is_empty());
}

#[test]
fn hex_dump_formats_pairs() {
    assert_eq!(hex_dump(&[0xAC, 0x02]), "ac 02");
    assert_eq!(hex_dump(&[]), "");
    assert_eq!(hex_dump(&[0x0F, 0xF0, 0x9A]), "0f f0 9a");
}

#[test]
fn decode_result_text() {
    assert_eq!(DecodeResult::new(300, 2).to_text(), "DecodeResult { value: 300, bytes_read: 2 }");
    assert_eq!(DecodeResult::new(0, 0).to_text(), "DecodeResult { value: 0, bytes_read: 0 }");
}
