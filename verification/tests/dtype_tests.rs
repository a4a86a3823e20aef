use gnuradio_meta::header::{DataType, ScalarType, TargetFormat};

/// The ten scalar target types, in the order the expectations below use.
fn scalars() -> [ScalarType; 10] {
    [
        ScalarType::I8,
        ScalarType::U8,
        ScalarType::I16,
        ScalarType::U16,
        ScalarType::I32,
        ScalarType::U32,
        ScalarType::I64,
        ScalarType::U64,
        ScalarType::F32,
        ScalarType::F64,
    ]
}

/// Checks one encoding against every scalar and complex target: exact
/// representation and convertibility where expected, and never across a
/// mismatched complex flag.
fn check_lattice(dt: DataType, reads: [bool; 10], conv: [bool; 10]) {
    let sc = scalars();
    for i in 0..10 {
        assert_eq!(dt.reads_directly_to(false, TargetFormat::Scalar(sc[i])), reads[i]);
        assert_eq!(dt.converts_to(false, TargetFormat::Scalar(sc[i])), conv[i]);
        assert_eq!(dt.reads_directly_to(true, TargetFormat::Complex(sc[i])), reads[i]);
        assert_eq!(dt.converts_to(true, TargetFormat::Complex(sc[i])), conv[i]);
        assert!(!dt.reads_directly_to(false, TargetFormat::Complex(sc[i])));
        assert!(!dt.reads_directly_to(true, TargetFormat::Scalar(sc[i])));
    }
}

#[test]
fn dtype_byte() {
    assert!(!DataType::Byte.is_floating());
    check_lattice(
        DataType::Byte,
        [true, false, false, false, false, false, false, false, false, false],
        [true, false, true, false, true, false, false, false, true, true],
    );
}

#[test]
fn dtype_short() {
    assert!(!DataType::Short.is_floating());
    check_lattice(
        DataType::Short,
        [false, false, true, false, false, false, false, false, false, false],
        [false, false, true, false, true, false, false, false, true, true],
    );
}

#[test]
fn dtype_int() {
    assert!(!DataType::Int.is_floating());
    check_lattice(
        DataType::Int,
        [false, false, false, false, true, false, false, false, false, false],
        [false, false, false, false, true, false, false, false, true, true],
    );
}

#[test]
fn dtype_float() {
    assert!(DataType::Float.is_floating());
    check_lattice(
        DataType::Float,
        [false, false, false, false, false, false, false, false, true, false],
        [false, false, false, false, false, false, false, false, true, true],
    );
}

#[test]
fn dtype_double() {
    assert!(DataType::Double.is_floating());
    check_lattice(
        DataType::Double,
        [false, false, false, false, false, false, false, false, false, true],
        [false, false, false, false, false, false, false, false, true, true],
    );
}

#[test]
fn direct_reads_also_convert() {
    let all = [DataType::Byte, DataType::Short, DataType::Int, DataType::Float, DataType::Double];
    let sc = scalars();
    for dt in all {
        for complex in [false, true] {
            for s in sc {
                for target in [TargetFormat::Scalar(s), TargetFormat::Complex(s)] {
                    if dt.reads_directly_to(complex, target) {
                        assert!(dt.converts_to(complex, target));
                    }
                }
            }
            // Convertibility is reflexive: every encoding converts to its
            // own native format.
            let native = match dt {
                DataType::Byte => ScalarType::I8,
                DataType::Short => ScalarType::I16,
                DataType::Int => ScalarType::I32,
                DataType::Float => ScalarType::F32,
                DataType::Double => ScalarType::F64,
            };
            let own = if complex {
                TargetFormat::Complex(native)
            } else {
                TargetFormat::Scalar(native)
            };
            assert!(dt.converts_to(complex, own));
        }
        assert!(dt.converts_to_dtype(dt));
    }
}

#[test]
fn dtype_from_int_codes() {
    assert_eq!(DataType::from_int(0), Ok(DataType::Byte));
    assert_eq!(DataType::from_int(1), Ok(DataType::Short));
    assert_eq!(DataType::from_int(2), Ok(DataType::Int));
    assert_eq!(DataType::from_int(3), Ok(DataType::Float));
    assert_eq!(DataType::from_int(4), Ok(DataType::Double));
    assert!(DataType::from_int(5).is_err());
    assert!(DataType::from_int(-1).is_err());
}

#[test]
fn double_to_float_is_the_only_narrowing() {
    assert!(DataType::Double.converts_to(false, TargetFormat::Scalar(ScalarType::F32)));
    assert!(!DataType::Int.converts_to(false, TargetFormat::Scalar(ScalarType::I16)));
    assert!(!DataType::Short.converts_to(false, TargetFormat::Scalar(ScalarType::I8)));
}
