use yenc::constants::{CR, ESCAPE, LF, NUL};
use yenc::decode::parse_header_line;
use yenc::{decode_buffer, encode_buffer, EncodeOptions};
use yenc::encode::encode_byte;

#[test]
fn parse_valid_footer_end_nl() {
    let parse_result = parse_header_line(b"=yend size=26624 part=1 pcrc32=ae052b48\n");
    assert!(parse_result.is_ok());
    let metadata = parse_result.unwrap();
    assert_eq!(Some(1), metadata.part);
    assert_eq!(Some(26624), metadata.size);
    assert_eq!(Some(0xae052b48), metadata.pcrc32);
    assert!(metadata.crc32.is_none());
}

#[test]
fn parse_valid_footer_end_crlf() {
    let parse_result =
        parse_header_line(b"=yend size=26624 part=1 pcrc32=ae052b48 crc32=ff00ff00\r\n");
    assert!(parse_result.is_ok());
    let metadata = parse_result.unwrap();
    assert_eq!(Some(1), metadata.part);
    assert_eq!(Some(26624), metadata.size);
    assert_eq!(Some(0xae052b48), metadata.pcrc32);
    assert_eq!(Some(0xff00ff00), metadata.crc32);
}

#[test]
fn parse_valid_footer_end_space() {
    let parse_result = parse_header_line(b"=yend size=26624 part=1 pcrc32=ae052b48 \n");
    assert!(parse_result.is_ok());
    let metadata = parse_result.unwrap();
    assert_eq!(Some(1), metadata.part);
    assert_eq!(Some(26624), metadata.size);
    assert_eq!(Some(0xae052b48), metadata.pcrc32);
}

#[test]
fn parse_valid_header_begin() {
    let parse_result = parse_header_line(
        b"=ybegin part=1 line=128 size=189463 name=CatOnKeyboardInSpace001.jpg\n",
    );
    assert!(parse_result.is_ok());
    let metadata = parse_result.unwrap();
    assert_eq!(metadata.part, Some(1));
    assert_eq!(metadata.size, Some(189463));
    assert_eq!(metadata.line_length, Some(128));
    assert_eq!(
        Some("CatOnKeyboardInSpace001.jpg".to_string()),
        metadata.name,
    );
}

#[test]
fn parse_valid_header_part() {
    let parse_result = parse_header_line(b"=ypart begin=1 end=189463\n");
    assert!(parse_result.is_ok());
    let metadata = parse_result.unwrap();
    assert_eq!(metadata.begin, Some(1));
    assert_eq!(metadata.end, Some(189463));
}

#[test]
fn invalid_header_tag() {
    let parse_result = parse_header_line(b"=yparts begin=1 end=189463\n");
    assert!(parse_result.is_err());
}

#[test]
fn invalid_header_unknown_keyword() {
    let parse_result = parse_header_line(b"=ybegin parts=1 total=4 name=party.jpg\r\n");
    assert!(parse_result.is_err());
}

#[test]
fn invalid_header_invalid_begin() {
    let parse_result = parse_header_line(b"=ypart begin=a end=189463\n");
    assert!(parse_result.is_err());
}

#[test]
fn invalid_header_invalid_end() {
    let parse_result = parse_header_line(b"=ypart begin=1 end=18_9463\n");
    assert!(parse_result.is_err());
}

#[test]
fn invalid_header_empty_keyword() {
    let parse_result = parse_header_line(b"=ypart =1 end=189463\n");
    assert!(parse_result.is_err());
}

#[test]
fn invalid_header_incomplete_trailing_keyword() {
    // `junk` reaches the line feed still in keyword state with no `=`
    let parse_result = parse_header_line(b"=ypart begin=1 junk\n");
    match parse_result {
        Err(yenc::DecodeError::InvalidHeader { position, .. }) => assert_eq!(position, 15),
        other => panic!("unexpected result: {:?}", other),
    }
}

#[test]
fn open_value_at_line_end_is_dropped() {
    // a value never closed by its terminator commits nothing
    let parse_result = parse_header_line(b"=yend size=26624");
    assert!(parse_result.is_ok());
    assert!(parse_result.unwrap().size.is_none());
}

#[test]
fn decode_invalid() {
    assert!(decode_buffer(&[b'=']).unwrap().is_empty());
}

#[test]
fn decode_valid_ff() {
    assert_eq!(&vec![0xff - 0x2A], &decode_buffer(&[0xff]).unwrap());
}

#[test]
fn decode_valid_01() {
    assert_eq!(&vec![0xff - 0x28], &decode_buffer(&[0x01]).unwrap());
}

#[test]
fn decode_valid_esc_ff() {
    assert_eq!(
        &vec![0xff - 0x40 - 0x2A],
        &decode_buffer(&[b'=', 0xff]).unwrap()
    );
}

#[test]
fn decode_valid_esc_01() {
    assert_eq!(
        &vec![0xff - 0x40 - 0x2A + 2],
        &decode_buffer(&[b'=', 0x01]).unwrap()
    );
}

#[test]
fn decode_valid_prepended_dots() {
    assert_eq!(&vec![b'.' - 0x2A], &decode_buffer(b"..").unwrap());
}

#[test]
fn decode_valid_prepended_single_dot() {
    assert_eq!(
        &vec![b'.' - 0x2A, 0xff - 0x2A],
        &decode_buffer(&[b'.', 0xff]).unwrap()
    );
}

#[test]
fn escape_null() {
    assert_eq!((ESCAPE, 0x40), encode_byte(214));
}

#[test]
fn escape_lf() {
    assert_eq!((ESCAPE, 0x4A), encode_byte(214 + LF));
}

#[test]
fn escape_cr() {
    assert_eq!((ESCAPE, 0x4D), encode_byte(214 + CR));
}

#[test]
fn escape_equal_sign() {
    assert_eq!((ESCAPE, 0x7D), encode_byte(ESCAPE - 42));
}

#[test]
fn non_escaped() {
    for x in 0..256u16 {
        let encoded = (x as u8).overflowing_add(42).0;
        if encoded != NUL && encoded != CR && encoded != LF && encoded != ESCAPE {
            assert_eq!((encoded, 0), encode_byte(x as u8));
        }
    }
}

#[test]
fn test_encode_buffer() {
    let buffer = (0..256u16).map(|c| c as u8).collect::<Vec<u8>>();
    const EXPECTED: [u8; 264] =
                   [42, 43, 44, 45, 46, 47, 48, 49, 50, 51, 52, 53, 54, 55, 56, 57, 58, 59, 60, 61,
                   125, 62, 63, 64, 65, 66, 67, 68, 69, 70, 71, 72, 73, 74, 75, 76, 77, 78, 79, 80,
                   81, 82, 83, 84, 85, 86, 87, 88, 89, 90, 91, 92, 93, 94, 95, 96, 97, 98, 99, 100,
                   101, 102, 103, 104, 105, 106, 107, 108, 109, 110, 111, 112, 113, 114, 115, 116,
                   117, 118, 119, 120, 121, 122, 123, 124, 125, 126, 127, 128, 129, 130, 131, 132,
                   133, 134, 135, 136, 137, 138, 139, 140, 141, 142, 143, 144, 145, 146, 147, 148,
                   149, 150, 151, 152, 153, 154, 155, 156, 157, 158, 159, 160, 161, 162, 163, 164,
                   165, 166, 167, 168, 13, 10, 169, 170, 171, 172, 173, 174, 175, 176, 177, 178,
                   179, 180, 181, 182, 183, 184, 185, 186, 187, 188, 189, 190, 191, 192, 193, 194,
                   195, 196, 197, 198, 199, 200, 201, 202, 203, 204, 205, 206, 207, 208, 209, 210,
                   211, 212, 213, 214, 215, 216,217, 218, 219, 220, 221, 222, 223, 224, 225, 226,
                   227, 228, 229, 230, 231, 232, 233, 234, 235, 236, 237, 238, 239, 240, 241, 242,
                   243, 244, 245, 246, 247, 248, 249, 250, 251, 252, 253, 254, 255, 61, 64, 1, 2, 3,
                   4, 5, 6, 7, 8, 9, 61, 74, 11, 12, 61, 77, 14, 15, 16, 17, 18, 19, 20, 21, 22, 23,
                   24, 25, 26, 27, 28, 29, 30, 31, 32, 33, 34, 35, 36, 37, 13, 10, 38, 39, 40, 41];
    let (encoded, _col) = encode_buffer(&buffer, 0, 128);
    assert_eq!(encoded.as_slice(), &EXPECTED[..]);
}

#[test]
fn encode_options_invalid_parts() {
    let encode_options = EncodeOptions::new().parts(2).begin(1).end(38400);
    let vr = encode_options.check_options();
    assert!(vr.is_err());
}

#[test]
fn encode_options_invalid_begin() {
    let encode_options = EncodeOptions::new().parts(2).part(1).end(38400);
    let vr = encode_options.check_options();
    assert!(vr.is_err());
}

#[test]
fn encode_options_invalid_end() {
    let encode_options = EncodeOptions::new().parts(2).part(1).begin(1);
    let vr = encode_options.check_options();
    assert!(vr.is_err());
}

#[test]
fn encode_options_invalid_range() {
    let encode_options = EncodeOptions::new().parts(2).part(1).begin(38400).end(1);
    let vr = encode_options.check_options();
    assert!(vr.is_err());
}

#[test]
fn equality() {
    let b = (0..256).map(|c| c as u8).collect::<Vec<u8>>();
    assert_eq!(b, {
        let (output, _col) = encode_buffer(&b, 0, 128);
        decode_buffer(&output)
    }
    .unwrap()
    .as_slice());
}
