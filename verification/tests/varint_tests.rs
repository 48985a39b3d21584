use routeproxy::error::{ErrorKind, ProxyError};
use routeproxy::proto::varint::{
    read_varint_string_from_slice, write_varint_string_to_vec, VarInt,
};
use routeproxy::text::{first_label, str_eq};

fn decode(bytes: &[u8]) -> (Result<i32, ProxyError>, usize) {
    let mut cursor: &[u8] = bytes;
    let r = VarInt::read_from_slice(&mut cursor);
    (r, bytes.len() - cursor.len())
}

fn encode(value: i32) -> Vec<u8> {
    let mut out = Vec::new();
    VarInt::write_to_vec(value, &mut out);
    out
}

fn expected_width(n: u32) -> usize {
    let bits = (32 - n.leading_zeros()) as usize;
    if bits == 0 {
        1
    } else {
        (bits + 6) / 7
    }
}

#[test]
fn varint_reads_single_byte_values() {
    assert_eq!(decode(&[0x00]), (Ok(0), 1));
    assert_eq!(decode(&[0x01]), (Ok(1), 1));
    assert_eq!(decode(&[0x7f]), (Ok(127), 1));
}

#[test]
fn varint_reads_multi_byte_values() {
    assert_eq!(decode(&[0x80, 0x01]), (Ok(128), 2));
    assert_eq!(decode(&[0xff, 0x01]), (Ok(255), 2));
    assert_eq!(decode(&[0xdd, 0xc7, 0x01]), (Ok(25565), 3));
    assert_eq!(decode(&[0xe0, 0xa7, 0x12]), (Ok(300_000), 3));
    assert_eq!(decode(&[0xff, 0xff, 0x7f]), (Ok(2_097_151), 3));
    assert_eq!(decode(&[0xff, 0xff, 0xff, 0xff, 0x07]), (Ok(i32::MAX), 5));
}

#[test]
fn varint_wraps_into_negative_values() {
    assert_eq!(decode(&[0xff, 0xff, 0xff, 0xff, 0x0f]), (Ok(-1), 5));
    assert_eq!(decode(&[0x80, 0x80, 0x80, 0x80, 0x08]), (Ok(i32::MIN), 5));
}

#[test]
fn varint_drops_bits_above_the_thirty_second() {
    assert_eq!(decode(&[0x81, 0x80, 0x80, 0x80, 0x10]), (Ok(1), 5));
    assert_eq!(decode(&[0xff, 0xff, 0xff, 0xff, 0x7f]), (Ok(-1), 5));
}

#[test]
fn varint_leaves_the_cursor_behind_the_integer() {
    let data = [0xac, 0x02, 0x99, 0x98];
    let mut cursor: &[u8] = &data;
    assert_eq!(VarInt::read_from_slice(&mut cursor), Ok(300));
    assert_eq!(cursor, &[0x99, 0x98]);
    assert_eq!(VarInt::read_from_slice(&mut cursor), Err(ProxyError::VarIntTruncated));
}

#[test]
fn varint_of_an_empty_input_is_truncated() {
    let (r, _) = decode(&[]);
    assert_eq!(r, Err(ProxyError::VarIntTruncated));
    assert_eq!(r.unwrap_err().kind(), ErrorKind::UnexpectedEof);
}

#[test]
fn varint_that_ends_in_a_continuation_byte_is_truncated() {
    assert_eq!(decode(&[0x80]).0, Err(ProxyError::VarIntTruncated));
    assert_eq!(decode(&[0xff, 0xff, 0xff, 0xff]).0, Err(ProxyError::VarIntTruncated));
}

#[test]
fn varint_with_five_continuation_bytes_is_too_big() {
    let (r, _) = decode(&[0x80, 0x80, 0x80, 0x80, 0x80, 0x01]);
    assert_eq!(r, Err(ProxyError::VarIntTooBig));
    assert_eq!(r.unwrap_err().kind(), ErrorKind::InvalidData);
    assert_eq!(decode(&[0xff, 0xff, 0xff, 0xff, 0xff]).0, Err(ProxyError::VarIntTooBig));
}

#[test]
fn varint_encodings_are_the_known_ones() {
    assert_eq!(encode(0), vec![0x00]);
    assert_eq!(encode(127), vec![0x7f]);
    assert_eq!(encode(128), vec![0x80, 0x01]);
    assert_eq!(encode(25565), vec![0xdd, 0xc7, 0x01]);
    assert_eq!(encode(300_000), vec![0xe0, 0xa7, 0x12]);
    assert_eq!(encode(i32::MAX), vec![0xff, 0xff, 0xff, 0xff, 0x07]);
    assert_eq!(encode(-1), vec![0xff, 0xff, 0xff, 0xff, 0x0f]);
}

#[test]
fn varint_encoder_appends() {
    let mut out = vec![0x01, 0x02];
    VarInt::write_to_vec(300, &mut out);
    assert_eq!(out, vec![0x01, 0x02, 0xac, 0x02]);
}

#[test]
fn varint_round_trip_with_exact_width() {
    let samples: [i32; 16] = [
        0,
        1,
        2,
        63,
        127,
        128,
        16_383,
        16_384,
        2_097_151,
        2_097_152,
        262_144,
        268_435_455,
        268_435_456,
        1_000_000_007,
        i32::MAX - 1,
        i32::MAX,
    ];
    for n in samples {
        let mut bytes = encode(n);
        assert_eq!(bytes.len(), expected_width(n as u32));
        let written = bytes.len();
        bytes.push(0x55);
        assert_eq!(decode(&bytes), (Ok(n), written));
    }
}

#[test]
fn varint_round_trip_of_negative_values() {
    for n in [-1, -2, -128, -300_000, i32::MIN] {
        let bytes = encode(n);
        assert_eq!(bytes.len(), 5);
        assert_eq!(decode(&bytes), (Ok(n), 5));
    }
}

#[test]
fn string_reads_text_and_moves_the_cursor() {
    let data = [0x03, b'a', b'b', b'c', 0x07];
    let mut cursor: &[u8] = &data;
    assert_eq!(read_varint_string_from_slice(&mut cursor), Ok("abc".to_string()));
    assert_eq!(cursor, &[0x07]);
}

#[test]
fn string_of_no_bytes_is_empty() {
    let data = [0x00];
    let mut cursor: &[u8] = &data;
    assert_eq!(read_varint_string_from_slice(&mut cursor), Ok(String::new()));
    assert_eq!(cursor.len(), 0);
}

#[test]
fn string_round_trip() {
    for text in ["", "a", "fractal.example.com", "gr\u{fc}\u{df}e", "\u{1f600} \u{4e16}\u{754c}"] {
        let mut bytes = Vec::new();
        assert_eq!(write_varint_string_to_vec(text, &mut bytes), Ok(()));
        let written = bytes.len();
        bytes.extend_from_slice(&[1, 2, 3]);
        let mut cursor: &[u8] = &bytes;
        assert_eq!(read_varint_string_from_slice(&mut cursor), Ok(text.to_string()));
        assert_eq!(bytes.len() - cursor.len(), written);
    }
}

#[test]
fn string_round_trip_at_the_size_limit() {
    let text = "x".repeat(32 * 1024);
    let mut bytes = Vec::new();
    assert_eq!(write_varint_string_to_vec(&text, &mut bytes), Ok(()));
    assert_eq!(bytes.len(), 3 + 32 * 1024);
    let mut cursor: &[u8] = &bytes;
    assert_eq!(read_varint_string_from_slice(&mut cursor), Ok(text));
    assert_eq!(cursor.len(), 0);
}

#[test]
fn string_over_the_size_limit_is_not_written() {
    let text = "x".repeat(32 * 1024 + 1);
    let mut bytes = vec![9u8];
    assert_eq!(write_varint_string_to_vec(&text, &mut bytes), Err(ProxyError::StringTooLarge));
    assert_eq!(bytes, vec![9u8]);
}

#[test]
fn string_over_the_size_limit_is_refused() {
    let mut bytes = Vec::new();
    VarInt::write_to_vec(32 * 1024 + 1, &mut bytes);
    bytes.extend_from_slice(&vec![b'x'; 32 * 1024 + 1]);
    let mut cursor: &[u8] = &bytes;
    let r = read_varint_string_from_slice(&mut cursor);
    assert_eq!(r, Err(ProxyError::StringTooLarge));
    assert_eq!(r.unwrap_err().kind(), ErrorKind::InvalidData);
}

#[test]
fn string_of_negative_length_is_refused() {
    let bytes = [0xff, 0xff, 0xff, 0xff, 0x0f, b'a'];
    let mut cursor: &[u8] = &bytes;
    let r = read_varint_string_from_slice(&mut cursor);
    assert_eq!(r, Err(ProxyError::NegativeLength));
    assert_eq!(r.unwrap_err().kind(), ErrorKind::InvalidData);
}

#[test]
fn string_that_is_cut_short_is_refused() {
    let bytes = [0x04, b'a', b'b'];
    let mut cursor: &[u8] = &bytes;
    let r = read_varint_string_from_slice(&mut cursor);
    assert_eq!(r, Err(ProxyError::StringTruncated));
    assert_eq!(r.unwrap_err().kind(), ErrorKind::UnexpectedEof);
}

#[test]
fn string_of_bad_utf8_is_refused() {
    let bytes = [0x02, 0xc3, 0x28];
    let mut cursor: &[u8] = &bytes;
    let r = read_varint_string_from_slice(&mut cursor);
    assert_eq!(r, Err(ProxyError::InvalidUtf8));
    assert_eq!(r.unwrap_err().kind(), ErrorKind::InvalidData);
}

#[test]
fn string_with_a_bad_length_prefix_reports_the_prefix() {
    let mut cursor: &[u8] = &[0x80];
    assert_eq!(read_varint_string_from_slice(&mut cursor), Err(ProxyError::VarIntTruncated));
    let mut cursor: &[u8] = &[0x80, 0x80, 0x80, 0x80, 0x80, 0x00];
    assert_eq!(read_varint_string_from_slice(&mut cursor), Err(ProxyError::VarIntTooBig));
}

#[test]
fn first_label_stops_at_the_first_dot() {
    assert_eq!(first_label("fractal.example.com"), "fractal");
    assert_eq!(first_label("absent.example.com"), "absent");
    assert_eq!(first_label("a.b"), "a");
}

#[test]
fn first_label_of_a_name_without_dot_is_the_name() {
    assert_eq!(first_label("fractal"), "fractal");
    assert_eq!(first_label(""), "");
}

#[test]
fn first_label_may_be_empty() {
    assert_eq!(first_label(".example.com"), "");
    assert_eq!(first_label("."), "");
}

#[test]
fn first_label_counts_characters_not_bytes() {
    assert_eq!(first_label("gr\u{fc}n.example"), "gr\u{fc}n");
    assert_eq!(first_label("\u{1f600}\u{1f600}.x"), "\u{1f600}\u{1f600}");
}

#[test]
fn str_eq_compares_whole_texts() {
    assert!(str_eq("abc", "abc"));
    assert!(str_eq("", ""));
    assert!(!str_eq("abc", "abd"));
    assert!(!str_eq("abc", "ab"));
    assert!(!str_eq("ab", "abc"));
}

#[test]
fn error_kinds_and_messages() {
    assert_eq!(ProxyError::UnknownServer.kind(), ErrorKind::NotFound);
    assert_eq!(ProxyError::RateLimited.kind(), ErrorKind::Other);
    assert_eq!(ProxyError::HandshakeTimeout.kind(), ErrorKind::TimedOut);
    assert_eq!(ProxyError::StreamClosed.kind(), ErrorKind::UnexpectedEof);
    assert_eq!(ProxyError::PacketTooLarge.kind(), ErrorKind::InvalidData);
    assert_eq!(ProxyError::LengthPrefixTooBig.kind(), ErrorKind::InvalidData);
    assert_eq!(ProxyError::EmptyPacket.kind(), ErrorKind::InvalidData);
    assert_eq!(ProxyError::ServerNameMissing.kind(), ErrorKind::InvalidData);
    assert_eq!(ProxyError::InvalidServerName.kind(), ErrorKind::InvalidData);
    assert_eq!(ProxyError::RateLimited.message(), "rate limit exceeded");
    assert_eq!(ProxyError::PacketTooLarge.message(), "packet too large");
    assert_eq!(ProxyError::VarIntTooBig.message(), "varint too big");
}
