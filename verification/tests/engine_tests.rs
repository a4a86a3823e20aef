use gnuradio_meta::engine::{
    read_raw, AttachedHeader, Cpx, DettachedHeader, HeaderReader, HeaderStorage, MetaFileError,
    SampleReadSeek, SampleValue, SeekFrom,
};
use gnuradio_meta::header::{DataType, Header, ScalarType, SeekPreserve, TargetFormat};
use gnuradio_meta::pmt::{encode, Tag};
use gnuradio_meta::source::MemorySource;

/// A header dictionary with the seven required fields; the producer's
/// `strt` claim is irrelevant to positioning, which the readers derive
/// from the wire layout.
fn header_tag(rate: f64, secs: u64, frac: f64, size: i32, code: i32, cplx: bool, bytes: u64) -> Tag {
    Tag::Dict(vec![
        (b"rx_rate".to_vec(), Tag::Double(rate.to_bits())),
        (
            b"rx_time".to_vec(),
            Tag::Tuple(vec![Tag::UInt64(secs), Tag::Double(frac.to_bits())]),
        ),
        (b"size".to_vec(), Tag::Int32(size)),
        (b"type".to_vec(), Tag::Int32(code)),
        (b"cplx".to_vec(), Tag::Bool(cplx)),
        (b"strt".to_vec(), Tag::UInt64(0)),
        (b"bytes".to_vec(), Tag::UInt64(bytes)),
    ])
}

/// One segment to build a stream from: its header record, its extra
/// record, and its data bytes.
struct Seg {
    hdr: Tag,
    extra: Tag,
    data: Vec<u8>,
}

fn seg(hdr: Tag, data: Vec<u8>) -> Seg {
    Seg { hdr, extra: Tag::Null, data }
}

/// Interleaves headers with their data bytes.
fn build_attached(segs: Vec<Seg>) -> MemorySource {
    let mut out = Vec::new();
    for s in &segs {
        encode(&s.hdr, &mut out);
        encode(&s.extra, &mut out);
        out.extend_from_slice(&s.data);
    }
    MemorySource::new(out)
}

/// Splits headers into their own stream.
fn build_detached(segs: Vec<Seg>) -> (MemorySource, MemorySource) {
    let mut hdrs = Vec::new();
    let mut data = Vec::new();
    for s in &segs {
        encode(&s.hdr, &mut hdrs);
        encode(&s.extra, &mut hdrs);
        data.extend_from_slice(&s.data);
    }
    (MemorySource::new(data), MemorySource::new(hdrs))
}

fn increasing_bytes(n: usize) -> Vec<u8> {
    (0..n).map(|i| i as u8).collect()
}

#[test]
fn read_byte_samples_attached() {
    let file = build_attached(vec![seg(
        header_tag(1.0, 0, 0.0, 1, 0, false, 256),
        increasing_bytes(256),
    )]);
    let mut reader = AttachedHeader::new(file);
    let mut samples: Vec<i8> = vec![0; 256];

    let num_read = reader.read_samples(&mut samples).unwrap();
    assert_eq!(num_read, 256);
    for i in 0..256 {
        assert_eq!(samples[i] as u8, i as u8);
    }

    let header = reader.get_last_read_header().unwrap();
    assert!(header.is_none());

    let mut more: Vec<i8> = vec![0; 8];
    assert_eq!(reader.read_samples(&mut more).unwrap(), 0);
}

#[test]
fn read_byte_samples_detached() {
    let (data, hdrs) = build_detached(vec![seg(
        header_tag(1.0, 0, 0.0, 1, 0, false, 256),
        increasing_bytes(256),
    )]);
    let mut reader = DettachedHeader::new(data, hdrs);
    let mut samples: Vec<i8> = vec![0; 256];
    assert_eq!(reader.read_samples(&mut samples).unwrap(), 256);
    for i in 0..256 {
        assert_eq!(samples[i] as u8, i as u8);
    }
    let mut more: Vec<i8> = vec![0; 4];
    assert_eq!(reader.read_samples(&mut more).unwrap(), 0);
}

#[test]
fn continuation_spans_adjacent_segments() {
    // 4 samples at 1 Hz from t = 0; the second segment starts within a
    // tenth of a sample of the extrapolated boundary at t = 3.
    let file = build_attached(vec![
        seg(header_tag(1.0, 0, 0.0, 1, 0, false, 4), vec![10, 11, 12, 13]),
        seg(header_tag(1.0, 3, 0.05, 1, 0, false, 4), vec![14, 15, 16, 17]),
    ]);
    let mut reader = AttachedHeader::new(file);
    let mut samples: Vec<i8> = vec![0; 8];
    assert_eq!(reader.read_samples(&mut samples).unwrap(), 8);
    for i in 0..8 {
        assert_eq!(samples[i], 10 + i as i8);
    }
}

#[test]
fn time_jump_stops_read_at_boundary() {
    let file = build_attached(vec![
        seg(header_tag(1.0, 0, 0.0, 1, 0, false, 4), vec![10, 11, 12, 13]),
        seg(header_tag(1.0, 9, 0.0, 1, 0, false, 4), vec![14, 15, 16, 17]),
    ]);
    let mut reader = AttachedHeader::new(file);
    let mut samples: Vec<i8> = vec![0; 8];
    assert_eq!(reader.read_samples(&mut samples).unwrap(), 4);
    assert_eq!(&samples[..4], &[10, 11, 12, 13]);
    // The next call starts a fresh run beyond the discontinuity.
    assert_eq!(reader.read_samples(&mut samples).unwrap(), 4);
    assert_eq!(&samples[..4], &[14, 15, 16, 17]);
}

#[test]
fn rate_change_stops_read_at_boundary() {
    let file = build_attached(vec![
        seg(header_tag(1.0, 0, 0.0, 1, 0, false, 4), vec![10, 11, 12, 13]),
        seg(header_tag(2.0, 3, 0.0, 1, 0, false, 4), vec![14, 15, 16, 17]),
    ]);
    let mut reader = AttachedHeader::new(file);
    let mut samples: Vec<i8> = vec![0; 8];
    // The buffer has room, but the read stops exactly at the boundary.
    assert_eq!(reader.read_samples(&mut samples).unwrap(), 4);
    assert_eq!(&samples[..4], &[10, 11, 12, 13]);
    assert_eq!(&samples[4..], &[0, 0, 0, 0]);
}

#[test]
fn type_change_stops_direct_read() {
    let file = build_attached(vec![
        seg(header_tag(1.0, 0, 0.0, 1, 0, false, 2), vec![1, 2]),
        seg(header_tag(1.0, 1, 0.0, 2, 1, false, 4), vec![3, 0, 4, 0]),
    ]);
    let mut reader = AttachedHeader::new(file);
    let mut samples: Vec<i8> = vec![0; 6];
    assert_eq!(reader.read_samples(&mut samples).unwrap(), 2);
}

#[test]
fn seek_preserve_format_fails_across_types() {
    let file = build_attached(vec![
        seg(header_tag(1.0, 0, 0.0, 1, 0, false, 4), vec![10, 11, 12, 13]),
        seg(header_tag(1.0, 3, 0.0, 2, 1, false, 8), vec![1, 0, 2, 0, 3, 0, 4, 0]),
    ]);
    let mut reader = AttachedHeader::new(file);
    let mut samples: Vec<i8> = vec![0; 2];
    assert_eq!(reader.read_samples(&mut samples).unwrap(), 2);
    let before = reader.cursor_pos();
    // Sample 5 lies in the Short segment: a Format-preserving seek must
    // fail and leave the cursor byte-identical.
    assert_eq!(
        reader.seek(SeekFrom::Start(5), SeekPreserve::Format),
        Err(MetaFileError::SeekConstraint)
    );
    assert_eq!(reader.cursor_pos(), before);
    // Without the format constraint the same seek lands.
    assert_eq!(reader.seek(SeekFrom::Start(5), SeekPreserve::Any), Ok(5));
    let mut shorts: Vec<i16> = vec![0; 2];
    assert_eq!(reader.read_samples(&mut shorts).unwrap(), 2);
    assert_eq!(shorts, vec![2, 3]);
}

#[test]
fn seek_within_segment() {
    let file = build_attached(vec![seg(
        header_tag(1.0, 0, 0.0, 1, 0, false, 16),
        increasing_bytes(16),
    )]);
    let mut reader = AttachedHeader::new(file);
    assert_eq!(reader.seek(SeekFrom::Start(5), SeekPreserve::Any), Ok(5));
    let mut samples: Vec<i8> = vec![0; 3];
    assert_eq!(reader.read_samples(&mut samples).unwrap(), 3);
    assert_eq!(samples, vec![5, 6, 7]);
    // Relative and end-based addressing agree.
    assert_eq!(reader.seek(SeekFrom::Current(-2), SeekPreserve::Segment), Ok(6));
    assert_eq!(reader.seek(SeekFrom::End(-1), SeekPreserve::Segment), Ok(15));
    assert_eq!(
        reader.seek(SeekFrom::Start(16), SeekPreserve::Any),
        Err(MetaFileError::SeekOutOfBounds)
    );
}

#[test]
fn seek_segment_lands_on_first_sample() {
    let file = build_attached(vec![
        seg(header_tag(1.0, 0, 0.0, 1, 0, false, 4), vec![10, 11, 12, 13]),
        seg(header_tag(1.0, 3, 0.0, 1, 0, false, 4), vec![14, 15, 16, 17]),
    ]);
    let mut reader = AttachedHeader::new(file);
    assert_eq!(reader.seek_segment(SeekFrom::Start(1), SeekPreserve::Any), Ok(4));
    let mut samples: Vec<i8> = vec![0; 2];
    assert_eq!(reader.read_samples(&mut samples).unwrap(), 2);
    assert_eq!(samples, vec![14, 15]);
    assert_eq!(
        reader.seek_segment(SeekFrom::Start(2), SeekPreserve::Any),
        Err(MetaFileError::SeekOutOfBounds)
    );
}

#[test]
fn seek_valid_segment_skips_inconvertible_segments() {
    let file = build_attached(vec![
        seg(header_tag(1.0, 0, 0.0, 4, 2, false, 4), vec![9, 0, 0, 0]),
        seg(header_tag(1.0, 1, 0.0, 8, 4, false, 8), vec![0; 8]),
        seg(header_tag(1.0, 2, 0.0, 2, 1, false, 4), vec![7, 0, 8, 0]),
    ]);
    let mut reader = AttachedHeader::new(file);
    // From the Int segment, the first segment convertible to I16 is the
    // third one; the Double segment in between is skipped.
    assert_eq!(
        reader.seek_valid_segment(TargetFormat::Scalar(ScalarType::I16)),
        Ok(2)
    );
    let mut shorts: Vec<i16> = vec![0; 2];
    assert_eq!(reader.read_conv(&mut shorts).unwrap(), 2);
    assert_eq!(shorts, vec![7, 8]);
}

#[test]
fn read_conv_widens_values_exactly() {
    let file = build_attached(vec![seg(
        header_tag(1.0, 0, 0.0, 1, 0, false, 4),
        vec![0x01, 0x7f, 0x80, 0xff],
    )]);
    let mut reader = AttachedHeader::new(file);
    let mut out: Vec<i32> = vec![0; 4];
    assert_eq!(reader.read_conv(&mut out).unwrap(), 4);
    assert_eq!(out, vec![1, 127, -128, -1]);
}

#[test]
fn read_complex_pairs_directly() {
    let file = build_attached(vec![seg(
        header_tag(1.0, 0, 0.0, 2, 1, true, 8),
        vec![1, 0, 2, 0, 3, 0, 0xff, 0xff],
    )]);
    let mut reader = AttachedHeader::new(file);
    let mut out: Vec<Cpx<i16>> = vec![Cpx { re: 0, im: 0 }; 2];
    assert_eq!(reader.read_samples(&mut out).unwrap(), 2);
    assert_eq!(out[0], Cpx { re: 1, im: 2 });
    assert_eq!(out[1], Cpx { re: 3, im: -1 });
}

#[test]
fn last_read_accessors_describe_the_run() {
    let extra = Tag::Dict(vec![(b"note".to_vec(), Tag::UInt64(42))]);
    let file = build_attached(vec![Seg {
        hdr: header_tag(4.0, 7, 0.0, 1, 0, false, 8),
        extra,
        data: increasing_bytes(8),
    }]);
    let mut reader = AttachedHeader::new(file);
    let mut samples: Vec<i8> = vec![0; 8];
    assert_eq!(reader.read_samples(&mut samples).unwrap(), 8);

    let meta = reader.get_last_read_meta().unwrap();
    assert_eq!(meta.samp_rate, 4.0f64.to_bits());
    assert_eq!(meta.rx_time.to_units(), 7i128 << 64);

    let ts = reader.get_last_read_rx_time().unwrap();
    assert_eq!(ts.to_units(), 7i128 << 64);

    let tags = reader.get_last_read_tags();
    assert_eq!(tags.len(), 1);
    assert_eq!(tags[0].sample, 0);
    assert_eq!(tags[0].key, b"note".to_vec());
    assert_eq!(tags[0].value, Tag::UInt64(42));
}

#[test]
fn header_index_grows_in_increasing_key_order() {
    let file = build_attached(vec![
        seg(header_tag(1.0, 0, 0.0, 1, 0, false, 4), vec![0; 4]),
        seg(header_tag(1.0, 3, 0.0, 1, 0, false, 4), vec![0; 4]),
        seg(header_tag(1.0, 7, 0.0, 1, 0, false, 4), vec![0; 4]),
    ]);
    let mut reader = AttachedHeader::new(file);
    // Querying bytes in increasing order discovers segments strictly left
    // to right; their data offsets are strictly increasing.
    let mut last_pos = None;
    for byte in [0u64, 60, 200, 320] {
        if let Some(h) = reader.get_header_for_byte(byte).unwrap() {
            if let Some(p) = last_pos {
                assert!(h.abs_pos >= p);
            }
            last_pos = Some(h.abs_pos);
        }
    }
}

#[test]
fn header_storage_looks_up_by_greatest_key() {
    let t1 = header_tag(1.0, 0, 0.0, 1, 0, false, 4);
    let t2 = header_tag(1.0, 3, 0.0, 1, 0, false, 8);
    let h1 = Header::from_tags(0, 10, t1, Tag::Null).unwrap();
    let h2 = Header::from_tags(14, 24, t2, Tag::Null).unwrap();
    let mut storage = HeaderStorage::new();
    storage.add_header_for_byte(0, h1);
    storage.add_header_for_byte(14, h2);
    assert_eq!(storage.num_segments(), 2);
    assert_eq!(storage.high_water(), 32);
    assert_eq!(storage.total_samples(), 12);
    assert_eq!(storage.get_header_for_byte(0).unwrap().key, 0);
    assert_eq!(storage.get_header_for_byte(13).unwrap().key, 0);
    assert_eq!(storage.get_header_for_byte(14).unwrap().key, 14);
    assert_eq!(storage.get_header_for_byte(31).unwrap().key, 14);
    assert!(storage.get_header_for_byte(32).is_none());
    assert_eq!(storage.segment_at(1).first_sample, 4);
}

#[test]
fn read_from_bytes_decodes_each_encoding() {
    let bytes: Vec<u8> = vec![0xfe, 0x01, 0x80, 0x40, 0x49, 0x0f, 0xdb, 0, 0];
    assert_eq!(DataType::Byte.read_from_bytes(&bytes, 0), SampleValue::I8(-2));
    assert_eq!(DataType::Short.read_from_bytes(&bytes, 1), SampleValue::I16(-32767));
    assert_eq!(DataType::Int.read_from_bytes(&bytes, 0), SampleValue::I32(0x408001fe));
    // Samples are stored least significant byte first.
    assert_eq!(
        DataType::Float.read_from_bytes(&bytes, 3),
        SampleValue::F32(0xdb0f4940u32)
    );
    assert_eq!(f32::from_bits(0xdb0f4940u32).to_bits(), 0xdb0f4940u32);
}

#[test]
fn convert_to_widens_integers_and_rejects_float_targets() {
    let bytes: Vec<u8> = vec![0x80, 0xff];
    assert_eq!(
        DataType::Byte.convert_to(&bytes, 0, ScalarType::I16),
        Some(SampleValue::I16(-128))
    );
    assert_eq!(
        DataType::Byte.convert_to(&bytes, 0, ScalarType::I32),
        Some(SampleValue::I32(-128))
    );
    assert_eq!(
        DataType::Short.convert_to(&bytes, 0, ScalarType::I32),
        Some(SampleValue::I32(-128))
    );
    // Down the lattice, or to a floating target, nothing is converted.
    assert_eq!(DataType::Short.convert_to(&bytes, 0, ScalarType::I8), None);
    assert_eq!(DataType::Byte.convert_to(&bytes, 0, ScalarType::F32), None);
}

#[test]
fn read_raw_decodes_consecutive_elements() {
    let mut src = MemorySource::new(vec![0x01, 0x00, 0xff, 0xff, 0x10, 0x27]);
    let mut buf: Vec<i16> = vec![0; 3];
    assert_eq!(read_raw(&mut src, 0, 3, &mut buf, 0).unwrap(), 3);
    assert_eq!(buf, vec![1, -1, 10000]);
    // Reading past the end fails without touching the untouched slots.
    let mut buf2: Vec<i16> = vec![7; 4];
    assert!(read_raw(&mut src, 0, 4, &mut buf2, 0).is_err());
}
