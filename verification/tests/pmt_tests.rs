use gnuradio_meta::pmt::{encode, parse, parse_maybe_eof, ParseError, Tag};
use gnuradio_meta::source::MemorySource;

/// Encodes a tag into fresh wire bytes.
fn wire(t: &Tag) -> Vec<u8> {
    let mut out = Vec::new();
    encode(t, &mut out);
    out
}

/// Parses one record from the start of the given bytes, expecting success,
/// and checks the whole input was consumed.
fn round_trip(t: Tag) {
    let bytes = wire(&t);
    let n = bytes.len() as u64;
    let mut src = MemorySource::new(bytes);
    let (back, end) = parse(&mut src, 0).expect("round trip parse failed");
    assert_eq!(end, n);
    assert_eq!(back, t);
}

#[test]
fn round_trip_scalars() {
    round_trip(Tag::Bool(true));
    round_trip(Tag::Bool(false));
    round_trip(Tag::Null);
    round_trip(Tag::Int32(0));
    round_trip(Tag::Int32(-1));
    round_trip(Tag::Int32(i32::MIN));
    round_trip(Tag::Int32(i32::MAX));
    round_trip(Tag::UInt64(0));
    round_trip(Tag::UInt64(u64::MAX));
    round_trip(Tag::Double(1.5f64.to_bits()));
    round_trip(Tag::Double((-0.0f64).to_bits()));
}

#[test]
fn round_trip_symbol() {
    round_trip(Tag::Symbol(b"rx_rate".to_vec()));
    round_trip(Tag::Symbol(Vec::new()));
    round_trip(Tag::Symbol("snowman \u{2603}".as_bytes().to_vec()));
}

#[test]
fn round_trip_nested() {
    round_trip(Tag::Pair(
        Box::new(Tag::Symbol(b"k".to_vec())),
        Box::new(Tag::Tuple(vec![Tag::Int32(7), Tag::Null, Tag::Bool(true)])),
    ));
    round_trip(Tag::Tuple(vec![]));
    round_trip(Tag::Dict(vec![
        (b"a".to_vec(), Tag::Int32(1)),
        (b"b".to_vec(), Tag::Pair(Box::new(Tag::Null), Box::new(Tag::UInt64(9)))),
        (b"c".to_vec(), Tag::Dict(vec![(b"inner".to_vec(), Tag::Bool(false))])),
    ]));
}

#[test]
fn parse_optional_empty_yields_none() {
    let mut src = MemorySource::new(Vec::new());
    assert_eq!(parse_maybe_eof(&mut src, 0), Ok(None));
}

#[test]
fn parse_optional_truncated_record_errors() {
    // Each multi-byte record kind, truncated right after its type byte.
    for kind in [0x2u8, 0x3, 0x4, 0x7, 0x9, 0xb, 0xc] {
        let mut src = MemorySource::new(vec![kind]);
        assert_eq!(parse_maybe_eof(&mut src, 0), Err(ParseError::UnexpectedEOF));
    }
}

#[test]
fn parse_rejects_unrecognized_type_byte() {
    let mut src = MemorySource::new(vec![0x5]);
    assert_eq!(parse(&mut src, 0), Err(ParseError::UnrecognizedTag));
}

#[test]
fn parse_rejects_malformed_dict() {
    // A dictionary whose chain does not continue with a pair record.
    let mut src = MemorySource::new(vec![0x9, 0x6]);
    assert_eq!(parse(&mut src, 0), Err(ParseError::MalformedDict));
    // A pair whose first element is no symbol.
    let mut bytes = vec![0x9, 0x7, 0x6];
    bytes.extend_from_slice(&wire(&Tag::Int32(3)));
    bytes.push(0x6);
    let mut src = MemorySource::new(bytes);
    assert_eq!(parse(&mut src, 0), Err(ParseError::MalformedDict));
}

#[test]
fn parse_rejects_invalid_utf8_symbol() {
    let mut src = MemorySource::new(vec![0x2, 0x0, 0x1, 0xff]);
    assert_eq!(parse(&mut src, 0), Err(ParseError::Utf8Error));
}

#[test]
fn dict_duplicate_key_keeps_last_value() {
    // dict(pair(k, 1), dict(pair(k, 2))) replaces the value in place.
    let mut bytes = vec![0x9, 0x7];
    bytes.extend_from_slice(&wire(&Tag::Symbol(b"k".to_vec())));
    bytes.extend_from_slice(&wire(&Tag::Int32(1)));
    bytes.push(0x9);
    bytes.push(0x7);
    bytes.extend_from_slice(&wire(&Tag::Symbol(b"k".to_vec())));
    bytes.extend_from_slice(&wire(&Tag::Int32(2)));
    bytes.push(0x6);
    let mut src = MemorySource::new(bytes);
    let (t, _) = parse(&mut src, 0).expect("parse failed");
    assert_eq!(t, Tag::Dict(vec![(b"k".to_vec(), Tag::Int32(2))]));
}

#[test]
fn parse_reads_big_endian() {
    let mut src = MemorySource::new(vec![0x3, 0x00, 0x00, 0x01, 0x02]);
    let (t, end) = parse(&mut src, 0).expect("parse failed");
    assert_eq!(end, 5);
    assert_eq!(t, Tag::Int32(258));
}

#[test]
fn parse_mid_stream_record() {
    let mut bytes = vec![0xaa, 0xbb];
    bytes.extend_from_slice(&wire(&Tag::UInt64(7)));
    let mut src = MemorySource::new(bytes);
    let (t, end) = parse(&mut src, 2).expect("parse failed");
    assert_eq!(t, Tag::UInt64(7));
    assert_eq!(end, 11);
}
