use yenc::crc32::Crc32;
use yenc::decode::DecodeOutcome;
use yenc::numfmt::{parse_dec_u64, parse_hex_u32, push_dec_u64, push_hex8_u32};
use yenc::{decode_buffer, encode_buffer, DecodeError, DecodeOptions, EncodeError, EncodeOptions};

fn apply_segments(outcome: &DecodeOutcome, buf: &mut Vec<u8>) {
    for seg in &outcome.segments {
        let off = seg.offset as usize;
        if buf.len() < off + seg.data.len() {
            buf.resize(off + seg.data.len(), 0);
        }
        buf[off..off + seg.data.len()].copy_from_slice(&seg.data);
    }
}

fn lcg_bytes(n: usize, mut state: u64) -> Vec<u8> {
    let mut v = Vec::with_capacity(n);
    for _ in 0..n {
        state = state
            .wrapping_mul(6364136223846793005)
            .wrapping_add(1442695040888963407);
        v.push((state >> 33) as u8);
    }
    v
}

fn encode_whole(data: &[u8], name: &str) -> Vec<u8> {
    let options = EncodeOptions::new().begin(1).end(data.len() as u64);
    options
        .encode_stream(data, data.len() as u64, name.as_bytes())
        .unwrap()
}

fn decode_whole(wire: &[u8]) -> DecodeOutcome {
    DecodeOptions::new(String::from("out"))
        .decode_stream(wire)
        .unwrap()
}

#[test]
fn crc32_known_value() {
    let mut c = Crc32::new();
    c.update_with_slice(b"123456789");
    assert_eq!(c.crc(), 0xcbf43926);
    assert_eq!(c.num_bytes(), 9);
}

#[test]
fn crc32_incremental_matches_one_shot() {
    let data = lcg_bytes(1000, 7);
    let mut one = Crc32::new();
    one.update_with_slice(&data);
    let mut two = Crc32::new();
    two.update_with_slice(&data[..400]);
    two.update_with_slice(&data[400..]);
    assert_eq!(one.crc(), two.crc());
    assert_eq!(two.num_bytes(), 1000);
}

#[test]
fn dec_and_hex_rendering() {
    let mut out = Vec::new();
    push_dec_u64(0, &mut out);
    assert_eq!(out, b"0");
    out.clear();
    push_dec_u64(1234567890123456789, &mut out);
    assert_eq!(out, b"1234567890123456789");
    out.clear();
    push_hex8_u32(0xae052b48, &mut out);
    assert_eq!(out, b"ae052b48");
    out.clear();
    push_hex8_u32(1, &mut out);
    assert_eq!(out, b"00000001");
}

#[test]
fn dec_and_hex_parsing() {
    assert_eq!(parse_dec_u64(b"189463"), Some(189463));
    assert_eq!(parse_dec_u64(b""), None);
    assert_eq!(parse_dec_u64(b"12a"), None);
    assert_eq!(parse_dec_u64(b"18446744073709551615"), Some(u64::MAX));
    assert_eq!(parse_dec_u64(b"18446744073709551616"), None);
    assert_eq!(parse_hex_u32(b"ae052b48"), Some(0xae052b48));
    assert_eq!(parse_hex_u32(b"FFFFFFFF"), Some(u32::MAX));
    assert_eq!(parse_hex_u32(b"100000000"), None);
    assert_eq!(parse_hex_u32(b""), None);
}

#[test]
fn dot_stuffed_at_line_start() {
    // byte 4 shifts to `.` and is doubled at column 0, and only there
    let (out, col) = encode_buffer(&[4, 4], 0, 128);
    assert_eq!(out, vec![46, 46, 46]);
    assert_eq!(col, 3);
    assert_eq!(decode_buffer(&out).unwrap(), vec![4, 4]);
}

#[test]
fn encode_stream_golden() {
    let wire = encode_whole(b"123456789", "test.txt");
    let expected: Vec<u8> = [
        b"=ybegin line=128 size=9 name=test.txt\r\n".as_slice(),
        &[91, 92, 93, 94, 95, 96, 97, 98, 99],
        b"\r\n=yend size=9 crc32=cbf43926\r\n",
    ]
    .concat();
    assert_eq!(wire, expected);
}

#[test]
fn decode_stream_golden() {
    let wire = encode_whole(b"123456789", "test.txt");
    let outcome = decode_whole(&wire);
    assert!(outcome.found);
    assert_eq!(outcome.name, Some("test.txt".to_string()));
    let mut buf = Vec::new();
    apply_segments(&outcome, &mut buf);
    assert_eq!(buf, b"123456789");
}

#[test]
fn decode_stream_without_begin_is_noop() {
    let outcome = decode_whole(b"some random text\r\nwith lines\r\n");
    assert!(!outcome.found);
    assert!(outcome.name.is_none());
    assert!(outcome.segments.is_empty());
}

#[test]
fn checksum_mismatch_rejected() {
    let mut wire = encode_whole(b"123456789", "t");
    // flip one hex digit of the declared crc32
    let pos = wire.len() - 3;
    wire[pos] = if wire[pos] == b'0' { b'1' } else { b'0' };
    let err = DecodeOptions::new(String::from("out"))
        .decode_stream(&wire)
        .unwrap_err();
    assert!(matches!(err, DecodeError::InvalidChecksum));
}

#[test]
fn part_checksum_mismatch_rejected() {
    let data = b"some part payload";
    let options = EncodeOptions::new()
        .parts(2)
        .part(1)
        .begin(1)
        .end(data.len() as u64);
    let mut wire = options
        .encode_stream(data, data.len() as u64, b"t")
        .unwrap();
    let pos = wire.len() - 3;
    wire[pos] = if wire[pos] == b'0' { b'1' } else { b'0' };
    let err = DecodeOptions::new(String::from("out"))
        .decode_stream(&wire)
        .unwrap_err();
    assert!(matches!(err, DecodeError::InvalidChecksum));
}

#[test]
fn size_mismatch_rejected() {
    // footer declares size=9 but the body holds 8 bytes
    let wire: Vec<u8> = [
        b"=ybegin line=128 size=9 name=t\r\n".as_slice(),
        &[91, 92, 93, 94, 95, 96, 97, 98],
        b"\r\n=yend size=9 \r\n",
    ]
    .concat();
    let err = DecodeOptions::new(String::from("out"))
        .decode_stream(&wire)
        .unwrap_err();
    match err {
        DecodeError::IncompleteData {
            expected_size,
            actual_size,
        } => {
            assert_eq!(expected_size, 9);
            assert_eq!(actual_size, 8);
        }
        other => panic!("unexpected error: {:?}", other),
    }
}

#[test]
fn invalid_header_position_reported() {
    let wire = b"=ybegin parts=1 line=128 size=5 name=x\n";
    let err = DecodeOptions::new(String::from("out"))
        .decode_stream(wire)
        .unwrap_err();
    match err {
        DecodeError::InvalidHeader { line, position } => {
            assert_eq!(position, 13);
            assert!(line.starts_with("=ybegin parts=1"));
        }
        other => panic!("unexpected error: {:?}", other),
    }
}

#[test]
fn part_line_with_zero_begin_rejected() {
    let wire: Vec<u8> = [
        b"=ybegin part=1 line=128 size=3 name=t\r\n".as_slice(),
        b"=ypart begin=0 end=3\r\n",
        &[91, 92, 93],
        b"\r\n=yend size=3 part=1\r\n",
    ]
    .concat();
    let err = DecodeOptions::new(String::from("out"))
        .decode_stream(&wire)
        .unwrap_err();
    assert!(matches!(err, DecodeError::InvalidHeader { .. }));
}

#[test]
fn encode_options_error_variants() {
    let e = EncodeOptions::new()
        .parts(2)
        .begin(1)
        .end(5)
        .check_options()
        .unwrap_err();
    assert!(matches!(e, EncodeError::PartNumberMissing));
    let e = EncodeOptions::new()
        .parts(2)
        .part(1)
        .end(5)
        .check_options()
        .unwrap_err();
    assert!(matches!(e, EncodeError::PartBeginOffsetMissing));
    let e = EncodeOptions::new()
        .parts(2)
        .part(1)
        .begin(1)
        .check_options()
        .unwrap_err();
    assert!(matches!(e, EncodeError::PartEndOffsetMissing));
    let e = EncodeOptions::new()
        .parts(2)
        .part(1)
        .begin(9)
        .end(5)
        .check_options()
        .unwrap_err();
    assert!(matches!(e, EncodeError::PartOffsetsInvalidRange));
    let e = EncodeOptions::new()
        .parts(2)
        .begin(1)
        .end(5)
        .encode_stream(b"hello", 5, b"t")
        .unwrap_err();
    assert!(matches!(e, EncodeError::PartNumberMissing));
}

#[test]
fn roundtrip_ascii_large() {
    let data = (0..10_000_000).map(|c| (c & 0x7f) as u8).collect::<Vec<u8>>();
    let wire = encode_whole(&data, "ascii.bin");
    let outcome = decode_whole(&wire);
    let mut buf = Vec::new();
    apply_segments(&outcome, &mut buf);
    assert!(buf == data);
}

#[test]
fn roundtrip_binary_large() {
    let data = (0..10_000_000).map(|c| (c & 0xff) as u8).collect::<Vec<u8>>();
    let wire = encode_whole(&data, "binary.bin");
    let outcome = decode_whole(&wire);
    let mut buf = Vec::new();
    apply_segments(&outcome, &mut buf);
    assert!(buf == data);
}

#[test]
fn roundtrip_random_large() {
    let data = lcg_bytes(10_000_000, 42);
    let wire = encode_whole(&data, "random.bin");
    let outcome = decode_whole(&wire);
    let mut buf = Vec::new();
    apply_segments(&outcome, &mut buf);
    assert!(buf == data);
}

#[test]
fn roundtrip_empty() {
    let data: Vec<u8> = Vec::new();
    // an empty source still needs a one-based range; encode one byte range is
    // impossible, so encode the empty body directly through the buffer codec
    let (encoded, col) = encode_buffer(&data, 0, 128);
    assert!(encoded.is_empty());
    assert_eq!(col, 0);
    assert_eq!(decode_buffer(&encoded).unwrap(), data);
}

#[test]
fn multipart_roundtrip() {
    let data = lcg_bytes(300_000, 5);
    let total = data.len() as u64;
    let parts: u32 = 3;
    let part_size = total / parts as u64;
    let mut buf = Vec::new();
    for part in 1..=parts {
        let begin = (part as u64 - 1) * part_size + 1;
        let end = if part == parts {
            total
        } else {
            begin + part_size - 1
        };
        let options = EncodeOptions::new()
            .parts(parts)
            .part(part)
            .begin(begin)
            .end(end);
        let wire = options.encode_stream(&data, total, b"multi.bin").unwrap();
        let outcome = decode_whole(&wire);
        assert!(outcome.found);
        apply_segments(&outcome, &mut buf);
    }
    assert!(buf == data);
}

#[test]
fn multipart_out_of_order_parts() {
    let data = lcg_bytes(100_000, 11);
    let total = data.len() as u64;
    let mut buf = Vec::new();
    for part in [2u32, 1u32] {
        let (begin, end) = if part == 1 { (1, 50_000) } else { (50_001, total) };
        let options = EncodeOptions::new()
            .parts(2)
            .part(part)
            .begin(begin)
            .end(end);
        let wire = options.encode_stream(&data, total, b"multi.bin").unwrap();
        let outcome = decode_whole(&wire);
        apply_segments(&outcome, &mut buf);
    }
    assert!(buf == data);
}

#[test]
fn decode_stream_without_footer_checks_declared_size() {
    // size from the begin line applies even when no footer arrives
    let wire: Vec<u8> = [
        b"=ybegin line=128 size=3 name=t\r\n".as_slice(),
        &[91, 92, 93],
        b"\r\n",
    ]
    .concat();
    let outcome = decode_whole(&wire);
    assert!(outcome.found);
    let wire_bad: Vec<u8> = [
        b"=ybegin line=128 size=4 name=t\r\n".as_slice(),
        &[91, 92, 93],
        b"\r\n",
    ]
    .concat();
    let err = DecodeOptions::new(String::from("out"))
        .decode_stream(&wire_bad)
        .unwrap_err();
    assert!(matches!(
        err,
        DecodeError::IncompleteData {
            expected_size: 4,
            actual_size: 3
        }
    ));
}

#[test]
fn wrapped_dot_needs_line_wise_decode() {
    // the 129th byte encodes to `.` at column 0 of the second line and is
    // doubled there; a whole-buffer decode undoes dot-stuffing only at the
    // buffer start, so only the line-wise stream decode round-trips this
    let mut data = vec![0u8; 128];
    data.push(4);
    let (wire, _col) = encode_buffer(&data, 0, 128);
    let decoded = decode_buffer(&wire).unwrap();
    assert_ne!(decoded, data);
    assert_eq!(decoded.len(), 130);
    let msg = encode_whole(&data, "d");
    let outcome = decode_whole(&msg);
    let mut buf = Vec::new();
    apply_segments(&outcome, &mut buf);
    assert_eq!(buf, data);
}
