use gnuradio_meta::header::{
    DataType, Header, HeaderField, InvalidHeaderError, SeekPreserve,
};
use gnuradio_meta::pmt::Tag;
use gnuradio_meta::rxtime::RxTime;

/// A header dictionary with the seven required fields.
fn header_tag(rate: f64, secs: u64, frac: f64, size: i32, code: i32, cplx: bool, strt: u64, bytes: u64) -> Tag {
    Tag::Dict(vec![
        (b"rx_rate".to_vec(), Tag::Double(rate.to_bits())),
        (
            b"rx_time".to_vec(),
            Tag::Tuple(vec![Tag::UInt64(secs), Tag::Double(frac.to_bits())]),
        ),
        (b"size".to_vec(), Tag::Int32(size)),
        (b"type".to_vec(), Tag::Int32(code)),
        (b"cplx".to_vec(), Tag::Bool(cplx)),
        (b"strt".to_vec(), Tag::UInt64(strt)),
        (b"bytes".to_vec(), Tag::UInt64(bytes)),
    ])
}

#[test]
fn from_tags_accepts_a_full_header() {
    let t = header_tag(250000.0, 3, 0.5, 2, 1, true, 149, 1000);
    let h = Header::from_tags(0, 149, t, Tag::Null).expect("header rejected");
    assert_eq!(h.samp_rate_bits, 250000.0f64.to_bits());
    assert_eq!(h.size, 2);
    assert_eq!(h.dtype, DataType::Short);
    assert!(h.cplx);
    assert_eq!(h.strt, 149);
    assert_eq!(h.bytes, 1000);
    assert_eq!(h.abs_pos, 149);
    assert_eq!(h.pos_in_file, 0);
    assert_eq!(h.get_num_samples(), 250);
    // duration of one sample at 250 kHz: 4 microseconds
    let d = h.get_sample_duration().to_units() as f64 / 2f64.powi(64);
    assert!((d - 4e-6).abs() < 1e-12);
    // rx_time 3.5 s
    assert_eq!(h.rx_time.to_units(), RxTime::new(3, 1u64 << 63).to_units());
}

#[test]
fn from_tags_rejects_non_dictionary() {
    assert_eq!(
        Header::from_tags(0, 0, Tag::Null, Tag::Null),
        Err(InvalidHeaderError::HeaderNotDictionary)
    );
}

#[test]
fn from_tags_reports_missing_and_mistyped_fields() {
    let mut no_rate = header_tag(1.0, 0, 0.0, 1, 0, false, 0, 16);
    if let Tag::Dict(ref mut es) = no_rate {
        es.remove(0);
    }
    assert_eq!(
        Header::from_tags(0, 0, no_rate, Tag::Null),
        Err(InvalidHeaderError::MissingField(HeaderField::RxRate))
    );

    let mut bad_rate = header_tag(1.0, 0, 0.0, 1, 0, false, 0, 16);
    if let Tag::Dict(ref mut es) = bad_rate {
        es[0].1 = Tag::Int32(44100);
    }
    assert_eq!(
        Header::from_tags(0, 0, bad_rate, Tag::Null),
        Err(InvalidHeaderError::WrongTypeField(HeaderField::RxRate))
    );

    let neg_rate = header_tag(-1.0, 0, 0.0, 1, 0, false, 0, 16);
    assert_eq!(
        Header::from_tags(0, 0, neg_rate, Tag::Null),
        Err(InvalidHeaderError::InvalidFieldValue(HeaderField::RxRate))
    );

    let bad_code = header_tag(1.0, 0, 0.0, 1, 9, false, 0, 16);
    assert_eq!(
        Header::from_tags(0, 0, bad_code, Tag::Null),
        Err(InvalidHeaderError::WrongDataType(9))
    );

    let bad_frac = header_tag(1.0, 0, 1.5, 1, 0, false, 0, 16);
    assert_eq!(
        Header::from_tags(0, 0, bad_frac, Tag::Null),
        Err(InvalidHeaderError::InvalidFieldValue(HeaderField::RxTimeFrac))
    );

    let bad_size = header_tag(1.0, 0, 0.0, 0, 0, false, 0, 16);
    assert_eq!(
        Header::from_tags(0, 0, bad_size, Tag::Null),
        Err(InvalidHeaderError::InvalidFieldValue(HeaderField::Size))
    );

    // 7 bytes do not divide into whole 2-byte samples.
    let bad_bytes = header_tag(1.0, 0, 0.0, 2, 1, false, 0, 7);
    assert_eq!(
        Header::from_tags(0, 0, bad_bytes, Tag::Null),
        Err(InvalidHeaderError::InvalidFieldValue(HeaderField::Bytes))
    );
}

#[test]
fn compatibility_gates_by_preserve_level() {
    let a = Header::from_tags(0, 0, header_tag(1.0, 0, 0.0, 1, 0, false, 0, 16), Tag::Null).unwrap();
    let b_rate = Header::from_tags(0, 16, header_tag(2.0, 0, 0.0, 1, 0, false, 16, 16), Tag::Null).unwrap();
    let b_type = Header::from_tags(0, 16, header_tag(1.0, 0, 0.0, 2, 1, false, 16, 16), Tag::Null).unwrap();
    let b_narrow = Header::from_tags(0, 16, header_tag(1.0, 0, 0.0, 4, 2, false, 16, 16), Tag::Null).unwrap();

    // A rate change passes only the levels that do not preserve the rate.
    assert!(b_rate.is_compatible_with(&a, SeekPreserve::Any));
    assert!(b_rate.is_compatible_with(&a, SeekPreserve::Format));
    assert!(b_rate.is_compatible_with(&a, SeekPreserve::Convertability));
    assert!(!b_rate.is_compatible_with(&a, SeekPreserve::SampleRate));
    assert!(!b_rate.is_compatible_with(&a, SeekPreserve::All));
    assert!(!b_rate.is_compatible_with(&a, SeekPreserve::Segment));

    // Byte converts to Short, so a type change passes convertibility but
    // not exact-format levels.
    assert!(b_type.is_compatible_with(&a, SeekPreserve::Any));
    assert!(!b_type.is_compatible_with(&a, SeekPreserve::Format));
    assert!(b_type.is_compatible_with(&a, SeekPreserve::Convertability));
    assert!(b_type.is_compatible_with(&a, SeekPreserve::SampleRate));
    assert!(b_type.is_compatible_with(&a, SeekPreserve::SampleRateAndConvertability));
    assert!(!b_type.is_compatible_with(&a, SeekPreserve::All));

    // The relation is directional: the current segment's encoding must
    // convert to the destination's, not the other way around.
    assert!(b_narrow.is_compatible_with(&a, SeekPreserve::Convertability));
    assert!(!a.is_compatible_with(&b_narrow, SeekPreserve::Convertability));

    // Identical headers pass every level.
    let a2 = Header::from_tags(0, 16, header_tag(1.0, 0, 0.0, 1, 0, false, 16, 16), Tag::Null).unwrap();
    for p in [
        SeekPreserve::Any,
        SeekPreserve::Format,
        SeekPreserve::Convertability,
        SeekPreserve::SampleRate,
        SeekPreserve::SampleRateAndConvertability,
        SeekPreserve::All,
        SeekPreserve::Segment,
    ] {
        assert!(a2.is_compatible_with(&a, p));
    }
}

#[test]
fn continuation_tolerates_a_tenth_of_a_sample() {
    // 4 samples at 1 Hz starting at t = 0: the last sample lies at t = 3.
    let a = Header::from_tags(0, 0, header_tag(1.0, 0, 0.0, 1, 0, false, 0, 4), Tag::Null).unwrap();
    let cont = Header::from_tags(0, 4, header_tag(1.0, 3, 0.05, 1, 0, false, 4, 4), Tag::Null).unwrap();
    let gap = Header::from_tags(0, 4, header_tag(1.0, 3, 0.2, 1, 0, false, 4, 4), Tag::Null).unwrap();
    assert!(cont.is_continuation_of(&a));
    assert!(!gap.is_continuation_of(&a));

    // An empty segment extrapolates to its own start time.
    let empty = Header::from_tags(0, 0, header_tag(1.0, 5, 0.0, 1, 0, false, 0, 0), Tag::Null).unwrap();
    let at_start = Header::from_tags(0, 0, header_tag(1.0, 5, 0.0, 1, 0, false, 0, 4), Tag::Null).unwrap();
    assert!(at_start.is_continuation_of(&empty));
}

#[test]
fn sample_time_extrapolates_in_both_directions() {
    let h = Header::from_tags(0, 0, header_tag(4.0, 10, 0.0, 1, 0, false, 0, 8), Tag::Null).unwrap();
    let quarter = (1u128 << 64) / 4;
    assert_eq!(h.get_sample_time(0).to_units(), h.rx_time.to_units());
    assert_eq!(
        h.get_sample_time(1).to_units(),
        h.rx_time.to_units() + quarter as i128
    );
    assert_eq!(
        h.get_sample_time(-4).to_units(),
        RxTime::new(9, 0).to_units()
    );
    // Outside the segment is fine: pure extrapolation.
    assert_eq!(
        h.get_sample_time(40).to_units(),
        RxTime::new(20, 0).to_units()
    );
}

#[test]
fn sample_pos_of_byte_counts_whole_samples() {
    let h = Header::from_tags(0, 100, header_tag(1.0, 0, 0.0, 2, 1, true, 100, 40), Tag::Null).unwrap();
    assert_eq!(h.get_sample_pos_of_byte(100), 0);
    assert_eq!(h.get_sample_pos_of_byte(103), 0);
    assert_eq!(h.get_sample_pos_of_byte(104), 1);
    assert_eq!(h.get_sample_pos_of_byte(139), 9);
}

#[test]
fn from_tags_accepts_extremely_low_rates() {
    // A rate of 2^-40 Hz: one sample takes 2^40 seconds, well within the
    // fixed-point range.
    let slow = header_tag(2f64.powi(-40), 0, 0.0, 1, 0, false, 0, 4);
    let h = Header::from_tags(0, 0, slow, Tag::Null).expect("slow rate rejected");
    assert_eq!(h.get_sample_duration().to_units(), 1i128 << (40 + 64));
    // Only a duration past the fixed-point range is rejected: at 2^-63 Hz
    // one sample would last 2^127 units, one past the representable span.
    let too_slow = header_tag(2f64.powi(-63), 0, 0.0, 1, 0, false, 0, 4);
    assert_eq!(
        Header::from_tags(0, 0, too_slow, Tag::Null),
        Err(InvalidHeaderError::InvalidFieldValue(HeaderField::RxRate))
    );
    let boundary = header_tag(2f64.powi(-62), 0, 0.0, 1, 0, false, 0, 4);
    let hb = Header::from_tags(0, 0, boundary, Tag::Null).expect("boundary rate rejected");
    assert_eq!(hb.get_sample_duration().to_units(), 1i128 << 126);
}
