use vector_text::borland::{parse_7bit_signed, parse_chrfile, DecodeError};
use vector_text::glyph::PackedPoint;

/// A minimal valid container: one character ('A'), width 10, and the
/// given stroke-data bytes.
fn minimal_container(data: &[u8]) -> Vec<u8> {
    let mut v: Vec<u8> = Vec::new();
    // magic "PK\x08\x08BGI "
    v.extend_from_slice(&[80, 75, 8, 8, 66, 71, 73, 32]);
    // empty description, terminator byte 26
    v.push(26);
    // header length 0x0080, little-endian
    v.extend_from_slice(&[0x80, 0x00]);
    // short name
    v.extend_from_slice(b"TEST");
    // file size, driver versions
    v.extend_from_slice(&[0, 0, 1, 0]);
    // header end marker 0x0001, little-endian
    v.extend_from_slice(&[1, 0]);
    // pad out to the header length
    while v.len() < 0x80 {
        v.push(0);
    }
    // data-section signature '+'
    v.push(43);
    // one character
    v.extend_from_slice(&[1, 0]);
    // reserved byte, then starting character 'A'
    v.push(0);
    v.push(65);
    // stroke offset, scan flag, three font metrics
    v.extend_from_slice(&[0, 0, 0, 0, 0, 0]);
    // four reserved bytes and one undocumented byte
    v.extend_from_slice(&[0, 0, 0, 0, 0]);
    assert_eq!(v.len(), 0x90);
    // offset table: character 0 at offset 0
    v.extend_from_slice(&[0, 0]);
    // width table
    v.push(10);
    v.extend_from_slice(data);
    v
}

#[test]
fn decode7_small_values() {
    assert_eq!(parse_7bit_signed(0), 0);
    assert_eq!(parse_7bit_signed(1), 1);
    assert_eq!(parse_7bit_signed(63), 63);
    assert_eq!(parse_7bit_signed(64), -64);
    assert_eq!(parse_7bit_signed(127), -1);
    // the top bit of the byte is ignored
    assert_eq!(parse_7bit_signed(0x81), 1);
    assert_eq!(parse_7bit_signed(0xFF), -1);
}

#[test]
fn decode7_round_trip() {
    // every value in [-64, 63] survives its own 7-bit encoding
    for v in -64i16..64 {
        let encoded = (v as i8 as u8) % 128;
        assert_eq!(parse_7bit_signed(encoded) as i16, v);
        // and decoding is idempotent on its own output range
        let once = parse_7bit_signed(encoded);
        let again = parse_7bit_signed((once as u8) % 128);
        assert_eq!(once, again);
    }
}

#[test]
fn borland_round_trip() {
    // move(1,2), draw(3,4), draw(5,-6), end
    let data = [0x81, 0x7E, 0x83, 0xFC, 0x85, 0x86, 0x00, 0x00];
    let buf = minimal_container(&data);
    let table = parse_chrfile(&buf).expect("decode should succeed");
    let glyph = table.lookup(65).expect("glyph for 'A'");
    assert_eq!(glyph.left, 0);
    assert_eq!(glyph.right, 10);
    let expected = vec![
        PackedPoint { x: 1, y: 2, pen: false },
        PackedPoint { x: 3, y: 4, pen: true },
        PackedPoint { x: 5, y: -6, pen: true },
    ];
    assert_eq!(glyph.strokes, expected);
    // every other slot is empty
    assert!(table.lookup(64).is_none());
    assert!(table.lookup(66).is_none());
    // out-of-range lookups are lenient
    assert!(table.lookup(1000).is_none());
}

#[test]
fn decode_is_pure() {
    let data = [0x81, 0x7E, 0x00, 0x00];
    let buf = minimal_container(&data);
    let t1 = parse_chrfile(&buf).expect("first decode");
    let t2 = parse_chrfile(&buf).expect("second decode");
    assert_eq!(t1.len(), t2.len());
    for cp in 0..t1.len() {
        match (t1.lookup(cp), t2.lookup(cp)) {
            (None, None) => {}
            (Some(a), Some(b)) => {
                assert_eq!(a.left, b.left);
                assert_eq!(a.right, b.right);
                assert_eq!(a.strokes, b.strokes);
            }
            _ => panic!("tables differ at {}", cp),
        }
    }
}

#[test]
fn bad_magic_is_fatal() {
    let mut buf = minimal_container(&[0, 0]);
    buf[0] = 81;
    assert!(matches!(parse_chrfile(&buf), Err(DecodeError::BadMagic)));
}

#[test]
fn truncated_buffer_is_fatal() {
    let buf = minimal_container(&[0x81, 0x7E]);
    // the path never reaches an end-of-character opcode
    assert!(matches!(parse_chrfile(&buf), Err(DecodeError::UnexpectedEnd)));
    assert!(matches!(
        parse_chrfile(&[80, 75]),
        Err(DecodeError::UnexpectedEnd)
    ));
}

#[test]
fn bad_header_end_is_fatal() {
    let mut buf = minimal_container(&[0, 0]);
    // the documented-but-wrong byte order 0x0100
    buf[19] = 0;
    buf[20] = 1;
    assert!(matches!(parse_chrfile(&buf), Err(DecodeError::BadHeaderEnd)));
}

#[test]
fn bad_signature_is_fatal() {
    let mut buf = minimal_container(&[0, 0]);
    buf[0x80] = 44;
    assert!(matches!(parse_chrfile(&buf), Err(DecodeError::BadSignature)));
}

#[test]
fn bad_header_layout_is_fatal() {
    let mut buf = minimal_container(&[0, 0]);
    // a header length other than 0x80 cannot land on 0x90
    buf[9] = 0x70;
    // keep the signature byte where the shorter header expects it
    buf[0x70] = 43;
    assert!(matches!(parse_chrfile(&buf), Err(DecodeError::BadHeaderLayout)));
}

#[test]
fn scan_opcode_is_fatal() {
    // opcode 01: top bit of the second byte only
    let data = [0x01, 0x82, 0x00, 0x00];
    let buf = minimal_container(&data);
    assert!(matches!(parse_chrfile(&buf), Err(DecodeError::ScanCommand)));
}

#[test]
fn char_out_of_range_is_fatal() {
    // one character starting at 255 still fits the table
    let mut buf = minimal_container(&[0x00, 0x00]);
    buf[0x84] = 255;
    assert!(parse_chrfile(&buf).is_ok());
    // two characters starting at 255: the second lands at 256
    let mut v = minimal_container(&[]);
    v.truncate(0x90);
    v[0x81] = 2; // two characters
    v[0x84] = 255;
    v.extend_from_slice(&[0, 0, 2, 0]); // offsets 0 and 2
    v.extend_from_slice(&[10, 11]); // widths
    v.extend_from_slice(&[0, 0, 0, 0]); // two empty paths
    assert!(matches!(parse_chrfile(&v), Err(DecodeError::CharOutOfRange)));
}
