//! The element-type lattice, segment headers, and their relations.
//!
//! A header describes one segment of samples: rate, start time, element
//! encoding, and the byte range it governs. Rates and other real-valued
//! fields travel as IEEE 754 bit patterns; durations and times are held as
//! fixed-point [`RxTime`] values, so all reasoning stays in integers.

use vstd::arithmetic::power2::pow2;
use vstd::prelude::*;

use crate::pmt::{Tag, TagV};
use crate::rxtime::RxTime;

verus! {

/// The five element encodings a segment can carry. Each can additionally be
/// "complex", which stores an interleaved real/imaginary pair of the same
/// encoding; that flag lives on the header, not here.
#[derive(Copy, Clone, Debug, PartialEq, Eq, Structural)]
pub enum DataType {
    /// A signed 8-bit integer.
    Byte,
    /// A signed 16-bit integer.
    Short,
    /// A signed 32-bit integer.
    Int,
    /// An IEEE 754 single-precision value.
    Float,
    /// An IEEE 754 double-precision value.
    Double,
}

/// A scalar element type a caller can ask for. Floating-point targets are
/// identified by their bit width; their values travel as bit patterns.
#[derive(Copy, Clone, Debug, PartialEq, Eq, Structural)]
pub enum ScalarType {
    I8,
    U8,
    I16,
    U16,
    I32,
    U32,
    I64,
    U64,
    F32,
    F64,
}

/// A caller's target element format: a scalar, or an interleaved
/// real/imaginary pair of a scalar.
#[derive(Copy, Clone, Debug, PartialEq, Eq, Structural)]
pub enum TargetFormat {
    Scalar(ScalarType),
    Complex(ScalarType),
}

/// The scalar type that an encoding is stored as.
pub open spec fn native_scalar(dt: DataType) -> ScalarType {
    match dt {
        DataType::Byte => ScalarType::I8,
        DataType::Short => ScalarType::I16,
        DataType::Int => ScalarType::I32,
        DataType::Float => ScalarType::F32,
        DataType::Double => ScalarType::F64,
    }
}

/// The native target format of an encoding with its complex flag.
pub open spec fn native_format(dt: DataType, complex: bool) -> TargetFormat {
    if complex {
        TargetFormat::Complex(native_scalar(dt))
    } else {
        TargetFormat::Scalar(native_scalar(dt))
    }
}

/// Exact representation: the target is the encoding's own format, width,
/// signedness and complex-ness included; no promotion.
pub open spec fn spec_reads_directly_to(dt: DataType, complex: bool, target: TargetFormat) -> bool {
    target == native_format(dt, complex)
}

/// The conversion lattice on scalars: integer widening, integer to float,
/// and float to float, where double to float is the only narrowing.
pub open spec fn scalar_converts(dt: DataType, sc: ScalarType) -> bool {
    match dt {
        DataType::Byte => sc == ScalarType::I8 || sc == ScalarType::I16 || sc == ScalarType::I32
            || sc == ScalarType::F32 || sc == ScalarType::F64,
        DataType::Short => sc == ScalarType::I16 || sc == ScalarType::I32 || sc == ScalarType::F32
            || sc == ScalarType::F64,
        DataType::Int => sc == ScalarType::I32 || sc == ScalarType::F32 || sc == ScalarType::F64,
        DataType::Float => sc == ScalarType::F32 || sc == ScalarType::F64,
        DataType::Double => sc == ScalarType::F32 || sc == ScalarType::F64,
    }
}

/// Convertibility to a target format: the complex flag must match on both
/// sides, and the scalar must lie up the lattice.
pub open spec fn spec_converts_to(dt: DataType, complex: bool, target: TargetFormat) -> bool {
    match target {
        TargetFormat::Scalar(sc) => !complex && scalar_converts(dt, sc),
        TargetFormat::Complex(sc) => complex && scalar_converts(dt, sc),
    }
}

/// The same lattice restricted to the five encodings, for comparing two
/// headers without a concrete target type.
pub open spec fn spec_converts_to_dtype(dt: DataType, other: DataType) -> bool {
    scalar_converts(dt, native_scalar(other))
}

impl DataType {
    /// Whether the encoding is a floating-point one.
    pub fn is_floating(&self) -> (r: bool)
        ensures
            r == (*self == DataType::Float || *self == DataType::Double),
    {
        *self == DataType::Float || *self == DataType::Double
    }

    /// Only true if the encoding is directly representable as the target
    /// format, including signedness, bit width and complex-ness.
    pub fn reads_directly_to(&self, complex: bool, target: TargetFormat) -> (r: bool)
        ensures
            r == spec_reads_directly_to(*self, complex, target),
    {
        let native = match *self {
            DataType::Byte => ScalarType::I8,
            DataType::Short => ScalarType::I16,
            DataType::Int => ScalarType::I32,
            DataType::Float => ScalarType::F32,
            DataType::Double => ScalarType::F64,
        };
        if complex {
            target == TargetFormat::Complex(native)
        } else {
            target == TargetFormat::Scalar(native)
        }
    }

    /// Whether the encoding converts to the target format: up-casting among
    /// the integer encodings, integer to float, and float to float, where
    /// double to float is the only lossy conversion allowed.
    pub fn converts_to(&self, complex: bool, target: TargetFormat) -> (r: bool)
        ensures
            r == spec_converts_to(*self, complex, target),
    {
        match target {
            TargetFormat::Scalar(sc) => !complex && self.scalar_converts_to(sc),
            TargetFormat::Complex(sc) => complex && self.scalar_converts_to(sc),
        }
    }

    /// The scalar lattice itself.
    pub fn scalar_converts_to(&self, sc: ScalarType) -> (r: bool)
        ensures
            r == scalar_converts(*self, sc),
    {
        match *self {
            DataType::Byte => sc == ScalarType::I8 || sc == ScalarType::I16 || sc
                == ScalarType::I32 || sc == ScalarType::F32 || sc == ScalarType::F64,
            DataType::Short => sc == ScalarType::I16 || sc == ScalarType::I32 || sc
                == ScalarType::F32 || sc == ScalarType::F64,
            DataType::Int => sc == ScalarType::I32 || sc == ScalarType::F32 || sc
                == ScalarType::F64,
            DataType::Float => sc == ScalarType::F32 || sc == ScalarType::F64,
            DataType::Double => sc == ScalarType::F32 || sc == ScalarType::F64,
        }
    }

    /// The conversion relation between two encodings.
    pub fn converts_to_dtype(&self, other: DataType) -> (r: bool)
        ensures
            r == spec_converts_to_dtype(*self, other),
    {
        let native = match other {
            DataType::Byte => ScalarType::I8,
            DataType::Short => ScalarType::I16,
            DataType::Int => ScalarType::I32,
            DataType::Float => ScalarType::F32,
            DataType::Double => ScalarType::F64,
        };
        self.scalar_converts_to(native)
    }

    /// The encoding named by a header's integer type code.
    pub fn from_int(i: i32) -> (r: Result<DataType, InvalidHeaderError>)
        ensures
            i == 0 ==> r == Ok::<DataType, InvalidHeaderError>(DataType::Byte),
            i == 1 ==> r == Ok::<DataType, InvalidHeaderError>(DataType::Short),
            i == 2 ==> r == Ok::<DataType, InvalidHeaderError>(DataType::Int),
            i == 3 ==> r == Ok::<DataType, InvalidHeaderError>(DataType::Float),
            i == 4 ==> r == Ok::<DataType, InvalidHeaderError>(DataType::Double),
            !(0 <= i <= 4) ==> r == Err::<DataType, InvalidHeaderError>(
                InvalidHeaderError::WrongDataType(i),
            ),
    {
        match i {
            0 => Ok(DataType::Byte),
            1 => Ok(DataType::Short),
            2 => Ok(DataType::Int),
            3 => Ok(DataType::Float),
            4 => Ok(DataType::Double),
            _ => Err(InvalidHeaderError::WrongDataType(i)),
        }
    }
}

/// An exact representation also converts, and every encoding converts to
/// its own format: the conversion relation contains direct representation
/// and is reflexive, for all ten (encoding, complex) combinations.
pub proof fn lemma_reads_directly_implies_converts(dt: DataType, complex: bool, target: TargetFormat)
    ensures
        spec_reads_directly_to(dt, complex, target) ==> spec_converts_to(dt, complex, target),
        spec_converts_to(dt, complex, native_format(dt, complex)),
        spec_converts_to_dtype(dt, dt),
{
}

/// Which qualities of the current segment a seek promises to preserve.
/// When in doubt, use `All`, as most streams keep a single format and
/// sample rate throughout.
#[derive(Copy, Clone, Debug, PartialEq, Eq, Structural)]
pub enum SeekPreserve {
    /// Allow seeking into any segment, preserving nothing.
    Any,
    /// Allow seeking into segments with the same format as the current one.
    Format,
    /// Allow seeking into segments whose format converts to the current
    /// one's (implied by `Format`).
    Convertability,
    /// Allow seeking into segments with the same sample rate as the current
    /// one.
    SampleRate,
    /// Allow seeking into segments with the same sample rate and a format
    /// that converts to the current one's.
    SampleRateAndConvertability,
    /// Allow seeking into segments with the same sample rate and format as
    /// the current one.
    All,
    /// Only seek within the current segment: the guarantees of `All`, more
    /// restrictively.
    Segment,
}

impl SeekPreserve {
    /// True when the seek guarantees that the destination segment's element
    /// encoding equals the current one.
    pub fn preserves_format(&self) -> (r: bool)
        ensures
            r == (*self == SeekPreserve::Format || *self == SeekPreserve::All || *self
                == SeekPreserve::Segment),
    {
        *self == SeekPreserve::Format || *self == SeekPreserve::All || *self
            == SeekPreserve::Segment
    }

    /// True when the seek guarantees that the destination segment's
    /// encoding converts to the current one.
    pub fn preserves_convertability(&self) -> (r: bool)
        ensures
            r == (*self != SeekPreserve::Any && *self != SeekPreserve::SampleRate),
    {
        *self != SeekPreserve::Any && *self != SeekPreserve::SampleRate
    }

    /// True when the seek guarantees that the destination segment's sample
    /// rate equals the current one.
    pub fn preserves_samplerate(&self) -> (r: bool)
        ensures
            r == (*self != SeekPreserve::Any && *self != SeekPreserve::Format && *self
                != SeekPreserve::Convertability),
    {
        *self != SeekPreserve::Any && *self != SeekPreserve::Format && *self
            != SeekPreserve::Convertability
    }
}

/// A required header field, named in validation errors.
#[derive(Copy, Clone, Debug, PartialEq, Eq, Structural)]
pub enum HeaderField {
    RxRate,
    RxTimeField,
    RxTimeSecs,
    RxTimeFrac,
    Size,
    TypeCode,
    Cplx,
    Strt,
    Bytes,
}

/// Why a parsed header record named no valid header.
#[derive(Copy, Clone, Debug, PartialEq, Eq, Structural)]
pub enum InvalidHeaderError {
    /// The header record was not a dictionary.
    HeaderNotDictionary,
    /// A required field was absent.
    MissingField(HeaderField),
    /// A required field was present with the wrong record type.
    WrongTypeField(HeaderField),
    /// The type code named no known element encoding.
    WrongDataType(i32),
    /// A field was present and well typed but held an impossible value.
    InvalidFieldValue(HeaderField),
}

/// The biased exponent field of an IEEE 754 double's bit pattern.
pub open spec fn f64_exp(bits: u64) -> int {
    ((bits as int) / 0x10_0000_0000_0000) % 0x800
}

/// The fraction field of an IEEE 754 double's bit pattern.
pub open spec fn f64_frac(bits: u64) -> int {
    (bits as int) % 0x10_0000_0000_0000
}

/// Whether the bit pattern names a strictly positive finite double.
pub open spec fn f64_is_pos_real(bits: u64) -> bool {
    bits / 0x8000_0000_0000_0000 == 0 && f64_exp(bits) != 0x7FF && bits != 0
}

/// The duration of one sample at the given rate, in `2^-64` s units,
/// rounded down: `floor(2^64 / rate)` for a positive finite rate, as long
/// as that value fits the fixed-point range, else nothing. Rates so high
/// that a sample lasts less than one unit yield zero.
pub open spec fn dur_units_of_rate(bits: u64) -> Option<int> {
    if !f64_is_pos_real(bits) {
        None
    } else {
        let e = f64_exp(bits);
        let m = if e == 0 {
            f64_frac(bits)
        } else {
            0x10_0000_0000_0000 + f64_frac(bits)
        };
        let q = if e == 0 {
            1138int
        } else {
            1139 - e
        };
        if q < 0 {
            Some(0)
        } else {
            let d = pow2(q as nat) as int / m;
            if d > i128::MAX {
                None
            } else {
                Some(d)
            }
        }
    }
}

/// The sub-second fraction named by a double's bit pattern, in `2^-64` s
/// units, rounded down. The fraction must lie in `[0, 1)`; zero of either
/// sign is accepted.
pub open spec fn frac_units_of_bits(bits: u64) -> Option<int> {
    if bits == 0 || bits == 0x8000_0000_0000_0000 {
        Some(0)
    } else if bits / 0x8000_0000_0000_0000 != 0 {
        None
    } else {
        let e = f64_exp(bits);
        if e >= 1023 {
            None
        } else if e == 0 {
            Some(0)
        } else {
            let mfull = 0x10_0000_0000_0000 + f64_frac(bits);
            if e >= 1011 {
                Some(mfull * pow2((e - 1011) as nat))
            } else {
                Some(mfull / pow2((1011 - e) as nat) as int)
            }
        }
    }
}

/// Computes `2^e` for an exponent up to 127.
fn pow2_u128(e: u32) -> (r: u128)
    requires
        e <= 127,
    ensures
        r == pow2(e as nat),
{
    proof {
        vstd::arithmetic::power2::lemma2_to64();
    }
    let mut r: u128 = 1;
    let mut i: u32 = 0;
    while i < e
        invariant
            i <= e <= 127,
            r == pow2(i as nat),
        decreases e - i,
    {
        proof {
            vstd::arithmetic::power2::lemma_pow2_unfold((i + 1) as nat);
            vstd::arithmetic::power2::lemma_pow2_strictly_increases(i as nat, 127);
            vstd::arithmetic::power2::lemma_pow2_adds(63, 64);
            vstd::arithmetic::power2::lemma2_to64();
            vstd::arithmetic::power2::lemma2_to64_rest();
        }
        r = r * 2;
        i = i + 1;
    }
    r
}

/// Executable form of [`dur_units_of_rate`].
pub fn rate_duration_units(bits: u64) -> (r: Option<i128>)
    ensures
        r is Some <==> dur_units_of_rate(bits) is Some,
        r matches Some(d) ==> Some(d as int) == dur_units_of_rate(bits) && d >= 0,
{
    let sign = bits / 0x8000_0000_0000_0000u64;
    let e = (bits / 0x10_0000_0000_0000u64) % 0x800;
    let m = bits % 0x10_0000_0000_0000u64;
    if sign != 0 || e == 0x7FF || bits == 0 {
        return None;
    }
    if e > 1139 {
        return Some(0);
    }
    let q: u32 = if e == 0 {
        1138
    } else {
        (1139 - e) as u32
    };
    let mfull: u128 = if e == 0 {
        m as u128
    } else {
        0x10_0000_0000_0000u128 + (m as u128)
    };
    if q >= 180 {
        // The quotient is at least 2^(q - 53) >= 2^127, past the range.
        proof {
            vstd::arithmetic::power2::lemma2_to64();
            vstd::arithmetic::power2::lemma2_to64_rest();
            vstd::arithmetic::power2::lemma_pow2_adds(63, 64);
            vstd::arithmetic::power2::lemma_pow2_pos(q as nat);
            vstd::arithmetic::div_mod::lemma_div_is_ordered_by_denominator(
                pow2(q as nat) as int,
                mfull as int,
                pow2(53) as int,
            );
            vstd::arithmetic::power2::lemma_pow2_subtracts(53, q as nat);
            if q > 180 {
                vstd::arithmetic::power2::lemma_pow2_strictly_increases(127, (q - 53) as nat);
            }
        }
        return None;
    }
    // Binary long division of 2^q by the mantissa: after step i the pair
    // (qt, rem) is the quotient and remainder of 2^i.
    let mut qt: u128 = 0;
    let mut rem: u128 = 1;
    let mut i: u32 = 0;
    proof {
        vstd::arithmetic::power2::lemma2_to64();
        vstd::arithmetic::power2::lemma2_to64_rest();
        vstd::arithmetic::div_mod::lemma_basic_div(1, mfull as int);
        vstd::arithmetic::div_mod::lemma_small_mod(1, mfull as nat);
    }
    while i < q
        invariant
            i <= q <= 179,
            0x10_0000_0000_0000 <= mfull < 0x20_0000_0000_0000,
            qt == pow2(i as nat) as int / (mfull as int),
            rem == pow2(i as nat) as int % (mfull as int),
        decreases q - i,
    {
        proof {
            vstd::arithmetic::power2::lemma2_to64();
            vstd::arithmetic::power2::lemma2_to64_rest();
            vstd::arithmetic::power2::lemma_pow2_adds(63, 64);
            vstd::arithmetic::power2::lemma_pow2_unfold((i + 1) as nat);
            vstd::arithmetic::div_mod::lemma_fundamental_div_mod(
                pow2(i as nat) as int,
                mfull as int,
            );
            // Bound the quotient so doubling it cannot overflow.
            if (i as nat) < 52 {
                vstd::arithmetic::power2::lemma_pow2_strictly_increases(i as nat, 52);
                vstd::arithmetic::div_mod::lemma_basic_div(pow2(i as nat) as int, mfull as int);
            } else {
                vstd::arithmetic::div_mod::lemma_div_is_ordered_by_denominator(
                    pow2(i as nat) as int,
                    pow2(52) as int,
                    mfull as int,
                );
                vstd::arithmetic::power2::lemma_pow2_subtracts(52, i as nat);
                if (i as nat) < 178 {
                    vstd::arithmetic::power2::lemma_pow2_strictly_increases(
                        (i - 52) as nat,
                        126,
                    );
                }
                vstd::arithmetic::power2::lemma_pow2_adds(63, 63);
            }
        }
        let ghost p_i = pow2(i as nat) as int;
        let ghost qt0 = qt as int;
        let ghost rem0 = rem as int;
        proof {
            vstd::arithmetic::mul::lemma_mul_is_commutative(mfull as int, qt0);
            assert(p_i == qt0 * (mfull as int) + rem0);
        }
        rem = rem * 2;
        if rem >= mfull {
            qt = qt * 2 + 1;
            rem = rem - mfull;
        } else {
            qt = qt * 2;
        }
        proof {
            assert((2 * qt0 + 1) * (mfull as int) == 2 * (qt0 * (mfull as int)) + (mfull as int))
                by (nonlinear_arith);
            assert((2 * qt0) * (mfull as int) == 2 * (qt0 * (mfull as int)))
                by (nonlinear_arith);
            assert(pow2((i + 1) as nat) == 2 * p_i);
            assert(pow2((i + 1) as nat) as int == (qt as int) * (mfull as int) + (rem as int));
            vstd::arithmetic::div_mod::lemma_fundamental_div_mod_converse(
                pow2((i + 1) as nat) as int,
                mfull as int,
                qt as int,
                rem as int,
            );
        }
        i = i + 1;
    }
    if qt > (i128::MAX as u128) {
        None
    } else {
        Some(qt as i128)
    }
}

/// Executable form of [`frac_units_of_bits`].
pub fn frac_units(bits: u64) -> (r: Option<u64>)
    ensures
        r is Some <==> frac_units_of_bits(bits) is Some,
        r matches Some(u) ==> Some(u as int) == frac_units_of_bits(bits),
{
    if bits == 0 || bits == 0x8000_0000_0000_0000u64 {
        return Some(0);
    }
    let sign = bits / 0x8000_0000_0000_0000u64;
    let e = (bits / 0x10_0000_0000_0000u64) % 0x800;
    let m = bits % 0x10_0000_0000_0000u64;
    if sign != 0 {
        return None;
    }
    if e >= 1023 {
        return None;
    }
    if e == 0 {
        return Some(0);
    }
    let mfull: u128 = 0x10_0000_0000_0000u128 + (m as u128);
    if e >= 1011 {
        let shift: u32 = (e - 1011) as u32;
        let p = pow2_u128(shift);
        proof {
            if shift < 11 {
                vstd::arithmetic::power2::lemma_pow2_strictly_increases(shift as nat, 11);
            }
            vstd::arithmetic::power2::lemma2_to64();
            vstd::arithmetic::mul::lemma_mul_upper_bound(
                mfull as int,
                0x20_0000_0000_0000 - 1,
                pow2(shift as nat) as int,
                0x800,
            );
        }
        let u: u128 = mfull * p;
        Some(u as u64)
    } else {
        if e < 959 {
            proof {
                if e < 958 {
                    vstd::arithmetic::power2::lemma_pow2_strictly_increases(53, (1011 - e) as nat);
                }
                vstd::arithmetic::power2::lemma2_to64();
                vstd::arithmetic::power2::lemma2_to64_rest();
                vstd::arithmetic::div_mod::lemma_basic_div(
                    mfull as int,
                    pow2((1011 - e) as nat) as int,
                );
            }
            return Some(0);
        }
        let shift: u32 = (1011 - e) as u32;
        let p = pow2_u128(shift);
        proof {
            vstd::arithmetic::power2::lemma_pow2_pos(shift as nat);
        }
        let u: u128 = mfull / p;
        proof {
            vstd::arithmetic::div_mod::lemma_div_is_ordered_by_denominator(mfull as int, 1, p as int);
        }
        Some(u as u64)
    }
}

/// One parsed segment descriptor: rate and duration, reception time of the
/// first sample, element encoding, the byte range of the segment, the
/// producer's extra metadata, and the two absolute positions computed while
/// loading. Immutable once constructed.
#[derive(Debug, PartialEq)]
pub struct Header {
    /// Sample rate of the data, as the IEEE 754 bits of a double in Hz.
    pub samp_rate_bits: u64,
    /// Duration of one sample, `floor(2^64 / rate)` fixed-point units.
    pub samp_dur: RxTime,
    /// Reception time of the first sample of the segment.
    pub rx_time: RxTime,
    /// Size of one scalar element in bytes.
    pub size: u32,
    /// Element encoding of the data.
    pub dtype: DataType,
    /// Whether each sample is an interleaved real/imaginary pair.
    pub cplx: bool,
    /// The producer's stated offset of the segment's first data byte.
    pub strt: u64,
    /// Size in bytes of the data in this header's segment.
    pub bytes: u64,
    /// The producer's extra metadata record, possibly null.
    pub extra_dict: Tag,
    /// Absolute position of the first data byte in the binary stream,
    /// computed while loading.
    pub abs_pos: u64,
    /// Absolute position of the first byte of the header record itself, in
    /// whichever stream holds it, computed while loading.
    pub pos_in_file: u64,
}

/// The mathematical shape of a header: times as plain unit counts.
pub struct HeaderV {
    pub samp_rate_bits: u64,
    pub samp_dur_units: int,
    pub rx_time_units: int,
    pub size: u32,
    pub dtype: DataType,
    pub cplx: bool,
    pub strt: u64,
    pub bytes: u64,
    pub extra_dict: TagV,
    pub abs_pos: u64,
    pub pos_in_file: u64,
}

impl View for Header {
    type V = HeaderV;

    open spec fn view(&self) -> HeaderV {
        HeaderV {
            samp_rate_bits: self.samp_rate_bits,
            samp_dur_units: self.samp_dur.units(),
            rx_time_units: self.rx_time.units(),
            size: self.size,
            dtype: self.dtype,
            cplx: self.cplx,
            strt: self.strt,
            bytes: self.bytes,
            extra_dict: self.extra_dict@,
            abs_pos: self.abs_pos,
            pos_in_file: self.pos_in_file,
        }
    }
}

/// Two headers with equal fields and the same extra-record shape.
pub open spec fn header_like(a: &Header, b: &Header) -> bool {
    &&& a.samp_rate_bits == b.samp_rate_bits
    &&& a.samp_dur == b.samp_dur
    &&& a.rx_time == b.rx_time
    &&& a.size == b.size
    &&& a.dtype == b.dtype
    &&& a.cplx == b.cplx
    &&& a.strt == b.strt
    &&& a.bytes == b.bytes
    &&& a.extra_dict@ == b.extra_dict@
    &&& a.abs_pos == b.abs_pos
    &&& a.pos_in_file == b.pos_in_file
}

impl Clone for Header {
    /// A deep copy with the same mathematical shape.
    fn clone(&self) -> (r: Header)
        ensures
            r@ == self@,
            header_like(&r, self),
    {
        Header {
            samp_rate_bits: self.samp_rate_bits,
            samp_dur: self.samp_dur,
            rx_time: self.rx_time,
            size: self.size,
            dtype: self.dtype,
            cplx: self.cplx,
            strt: self.strt,
            bytes: self.bytes,
            extra_dict: self.extra_dict.clone(),
            abs_pos: self.abs_pos,
            pos_in_file: self.pos_in_file,
        }
    }
}

/// The compatibility relation gated by a preserve level: same sample rate,
/// same element encoding, and a convertible encoding, each required by the
/// levels that promise it.
pub open spec fn spec_compatible_h(a: &Header, b: &Header, p: SeekPreserve) -> bool {
    &&& ((p != SeekPreserve::Any && p != SeekPreserve::Format && p != SeekPreserve::Convertability)
        ==> b.samp_rate_bits == a.samp_rate_bits)
    &&& ((p == SeekPreserve::Format || p == SeekPreserve::All || p == SeekPreserve::Segment)
        ==> b.dtype == a.dtype)
    &&& ((p != SeekPreserve::Any && p != SeekPreserve::SampleRate) ==> spec_converts_to_dtype(
        b.dtype,
        a.dtype,
    ))
}

/// Whether `a`'s first sample lies within a tenth of a sample duration of
/// the time extrapolated from `b`'s start to its last sample (to `b`'s own
/// start when `b` is empty). An extrapolated time outside the fixed-point
/// range is never a continuation.
pub open spec fn spec_is_continuation_h(a: &Header, b: &Header) -> bool {
    let n = b.spec_ns();
    let prod: int = if n == 0 {
        0
    } else {
        (n - 1) * b.samp_dur.units()
    };
    let expected = b.rx_time.units() + prod;
    &&& prod <= i128::MAX
    &&& i128::MIN <= expected <= i128::MAX
    &&& 10 * (if a.rx_time.units() >= expected {
        a.rx_time.units() - expected
    } else {
        expected - a.rx_time.units()
    }) <= b.samp_dur.units()
}

impl Header {
    /// Well-formedness of this header.
    pub open spec fn wf(&self) -> bool {
        &&& 1 <= self.size
        &&& (self.bytes as int) % self.spec_sb() == 0
        &&& self.abs_pos + self.bytes <= u64::MAX
        &&& 0 <= self.samp_dur.units() <= i128::MAX
    }

    /// Bytes of one whole sample, over the fields.
    pub open spec fn spec_sb(&self) -> int {
        self.size * (if self.cplx {
            2int
        } else {
            1int
        })
    }

    /// Number of whole samples in the segment, over the fields.
    pub open spec fn spec_ns(&self) -> int {
        (self.bytes as int) / self.spec_sb()
    }

    /// The first byte past the segment's data, over the fields.
    pub open spec fn spec_end(&self) -> int {
        self.abs_pos + self.bytes
    }

    /// Bytes of one whole sample.
    pub fn sample_bytes(&self) -> (r: u64)
        requires
            1 <= self.size,
        ensures
            r == self.spec_sb(),
            1 <= r,
    {
        (self.size as u64) * (if self.cplx {
            2
        } else {
            1
        })
    }

    /// Number of whole samples in the segment.
    pub fn get_num_samples(&self) -> (r: u64)
        requires
            self.wf(),
        ensures
            r == self.spec_ns(),
    {
        self.bytes / self.sample_bytes()
    }

    /// The duration of one sample at this header's rate.
    pub fn get_sample_duration(&self) -> (r: RxTime)
        ensures
            r == self.samp_dur,
    {
        self.samp_dur
    }

    /// The expected reception time of the sample at offset `sample`, which
    /// may lie outside the segment or be negative: pure extrapolation at
    /// this header's constant rate.
    pub fn get_sample_time(&self, sample: i64) -> (r: RxTime)
        requires
            i128::MIN <= sample * self.samp_dur.units() <= i128::MAX,
            i128::MIN <= self.rx_time.units() + sample * self.samp_dur.units() <= i128::MAX,
        ensures
            r.units() == self.rx_time.units() + sample * self.samp_dur.units(),
    {
        let prod: i128 = (sample as i128) * self.samp_dur.to_units();
        RxTime::from_units(self.rx_time.to_units() + prod)
    }

    /// The sample offset within the segment of an absolute byte at or past
    /// the data start.
    pub fn get_sample_pos_of_byte(&self, byte: u64) -> (r: u64)
        requires
            self.wf(),
            self.abs_pos <= byte,
        ensures
            r == (byte - self.abs_pos) / self.spec_sb(),
    {
        (byte - self.abs_pos) / self.sample_bytes()
    }

    /// Whether a seek from `other`'s segment into this one keeps what the
    /// preserve level promises.
    pub fn is_compatible_with(&self, other: &Header, preserve: SeekPreserve) -> (r: bool)
        ensures
            r == spec_compatible_h(self, other, preserve),
    {
        if preserve.preserves_samplerate() && other.samp_rate_bits != self.samp_rate_bits {
            return false;
        }
        if preserve.preserves_format() && other.dtype != self.dtype {
            return false;
        }
        if preserve.preserves_convertability() && !other.dtype.converts_to_dtype(self.dtype) {
            return false;
        }
        true
    }

    /// Whether this segment's first sample continues `other` in time, up to
    /// a tolerance of a tenth of `other`'s sample duration, absorbing
    /// producer jitter at the boundary without masking real jumps.
    pub fn is_continuation_of(&self, other: &Header) -> (r: bool)
        requires
            self.wf(),
            other.wf(),
        ensures
            r == spec_is_continuation_h(self, other),
    {
        let n = other.get_num_samples();
        let prod_opt: Option<i128> = if n == 0 {
            Some(0i128)
        } else {
            ((n - 1) as i128).checked_mul(other.samp_dur.to_units())
        };
        let prod = match prod_opt {
            Some(p) => p,
            None => {
                return false;
            },
        };
        let expected = match other.rx_time.to_units().checked_add(prod) {
            Some(e) => e,
            None => {
                return false;
            },
        };
        let diff: u128 = self.rx_time.abs_diff(RxTime::from_units(expected));
        match diff.checked_mul(10) {
            Some(x) => x <= other.samp_dur.to_units() as u128,
            None => false,
        }
    }
}

/// The bytes of the `rx_rate` field name.
pub open spec fn key_rx_rate() -> Seq<u8> {
    seq![0x72u8, 0x78u8, 0x5fu8, 0x72u8, 0x61u8, 0x74u8, 0x65u8]
}

/// The bytes of the `rx_time` field name.
pub open spec fn key_rx_time() -> Seq<u8> {
    seq![0x72u8, 0x78u8, 0x5fu8, 0x74u8, 0x69u8, 0x6du8, 0x65u8]
}

/// The bytes of the `size` field name.
pub open spec fn key_size() -> Seq<u8> {
    seq![0x73u8, 0x69u8, 0x7au8, 0x65u8]
}

/// The bytes of the `type` field name.
pub open spec fn key_type() -> Seq<u8> {
    seq![0x74u8, 0x79u8, 0x70u8, 0x65u8]
}

/// The bytes of the `cplx` field name.
pub open spec fn key_cplx() -> Seq<u8> {
    seq![0x63u8, 0x70u8, 0x6cu8, 0x78u8]
}

/// The bytes of the `strt` field name.
pub open spec fn key_strt() -> Seq<u8> {
    seq![0x73u8, 0x74u8, 0x72u8, 0x74u8]
}

/// The bytes of the `bytes` field name.
pub open spec fn key_bytes() -> Seq<u8> {
    seq![0x62u8, 0x79u8, 0x74u8, 0x65u8, 0x73u8]
}

/// The first entry with the given key, if any.
pub open spec fn dict_get(es: Seq<(Seq<u8>, TagV)>, key: Seq<u8>) -> Option<TagV>
    decreases es.len(),
{
    if es.len() == 0 {
        Option::None
    } else if es[0].0 == key {
        Option::Some(es[0].1)
    } else {
        dict_get(es.drop_first(), key)
    }
}

/// When the first match sits at `i`, `dict_get` returns its value.
proof fn lemma_dict_get_found(es: Seq<(Seq<u8>, TagV)>, key: Seq<u8>, i: int)
    requires
        0 <= i < es.len(),
        es[i].0 == key,
        forall|j: int| 0 <= j < i ==> es[j].0 != key,
    ensures
        dict_get(es, key) == Option::Some(es[i].1),
    decreases es.len(),
{
    if i > 0 {
        assert(forall|j: int| 0 <= j < es.drop_first().len() ==> es.drop_first()[j] == es[j + 1]);
        lemma_dict_get_found(es.drop_first(), key, i - 1);
    }
}

/// When no entry has the key, `dict_get` returns nothing.
proof fn lemma_dict_get_absent(es: Seq<(Seq<u8>, TagV)>, key: Seq<u8>)
    requires
        forall|j: int| 0 <= j < es.len() ==> es[j].0 != key,
    ensures
        dict_get(es, key) is None,
    decreases es.len(),
{
    if es.len() > 0 {
        assert(forall|j: int| 0 <= j < es.drop_first().len() ==> es.drop_first()[j] == es[j + 1]);
        lemma_dict_get_absent(es.drop_first(), key);
    }
}

/// Looks a key up in a dictionary's entry vector.
fn dict_find<'a>(es: &'a Vec<(Vec<u8>, Tag)>, key: &Vec<u8>) -> (r: Option<&'a Tag>)
    ensures
        r matches Some(t) ==> dict_get(crate::pmt::entries_view(es@), key@) == Option::Some(t@),
        r is None ==> dict_get(crate::pmt::entries_view(es@), key@) is None,
{
    proof {
        crate::pmt::lemma_entries_view(es@);
    }
    let mut i: usize = 0;
    while i < es.len()
        invariant
            i <= es.len(),
            forall|j: int| 0 <= j < i ==> es@[j].0@ != key@,
        decreases es.len() - i,
    {
        if crate::pmt::bytes_eq(&es[i].0, key) {
            proof {
                crate::pmt::lemma_entries_view(es@);
                lemma_dict_get_found(crate::pmt::entries_view(es@), key@, i as int);
            }
            return Some(&es[i].1);
        }
        i = i + 1;
    }
    proof {
        crate::pmt::lemma_entries_view(es@);
        lemma_dict_get_absent(crate::pmt::entries_view(es@), key@);
    }
    None
}

/// What building a header from a parsed header record and its extra record
/// yields: the validated field values, or the first validation failure in
/// field order.
pub open spec fn spec_from_tags(pos_in_file: u64, abs_pos: u64, tag: TagV, extra: TagV) -> Result<
    HeaderV,
    InvalidHeaderError,
> {
    match tag {
        TagV::Dict(es) => {
            match dict_get(es, key_rx_rate()) {
                Option::None => Err(InvalidHeaderError::MissingField(HeaderField::RxRate)),
                Option::Some(rv) => match rv {
                    TagV::Double(rate_bits) => match dur_units_of_rate(rate_bits) {
                        Option::None => Err(
                            InvalidHeaderError::InvalidFieldValue(HeaderField::RxRate),
                        ),
                        Option::Some(dur) => spec_from_tags_time(
                            pos_in_file,
                            abs_pos,
                            es,
                            extra,
                            rate_bits,
                            dur,
                        ),
                    },
                    _ => Err(InvalidHeaderError::WrongTypeField(HeaderField::RxRate)),
                },
            }
        },
        _ => Err(InvalidHeaderError::HeaderNotDictionary),
    }
}

/// The `rx_time` step of header validation.
pub open spec fn spec_from_tags_time(
    pos_in_file: u64,
    abs_pos: u64,
    es: Seq<(Seq<u8>, TagV)>,
    extra: TagV,
    rate_bits: u64,
    dur: int,
) -> Result<HeaderV, InvalidHeaderError> {
    match dict_get(es, key_rx_time()) {
        Option::None => Err(InvalidHeaderError::MissingField(HeaderField::RxTimeField)),
        Option::Some(tv) => match tv {
            TagV::Tuple(items) => {
                if items.len() < 1 {
                    Err(InvalidHeaderError::MissingField(HeaderField::RxTimeSecs))
                } else if items.len() < 2 {
                    Err(InvalidHeaderError::MissingField(HeaderField::RxTimeFrac))
                } else {
                    match items[0] {
                        TagV::UInt64(secs) => match items[1] {
                            TagV::Double(fb) => match frac_units_of_bits(fb) {
                                Option::None => Err(
                                    InvalidHeaderError::InvalidFieldValue(HeaderField::RxTimeFrac),
                                ),
                                Option::Some(fu) => {
                                    if secs >= 0x8000_0000_0000_0000 {
                                        Err(
                                            InvalidHeaderError::InvalidFieldValue(
                                                HeaderField::RxTimeSecs,
                                            ),
                                        )
                                    } else {
                                        spec_from_tags_rest(
                                            pos_in_file,
                                            abs_pos,
                                            es,
                                            extra,
                                            rate_bits,
                                            dur,
                                            secs * 0x1_0000_0000_0000_0000 + fu,
                                        )
                                    }
                                },
                            },
                            _ => Err(InvalidHeaderError::WrongTypeField(HeaderField::RxTimeFrac)),
                        },
                        _ => Err(InvalidHeaderError::WrongTypeField(HeaderField::RxTimeSecs)),
                    }
                }
            },
            _ => Err(InvalidHeaderError::WrongTypeField(HeaderField::RxTimeField)),
        },
    }
}

/// The remaining steps of header validation: size, type code, complex
/// flag, byte offsets, and the whole-sample check.
pub open spec fn spec_from_tags_rest(
    pos_in_file: u64,
    abs_pos: u64,
    es: Seq<(Seq<u8>, TagV)>,
    extra: TagV,
    rate_bits: u64,
    dur: int,
    rx_units: int,
) -> Result<HeaderV, InvalidHeaderError> {
    match dict_get(es, key_size()) {
        Option::None => Err(InvalidHeaderError::MissingField(HeaderField::Size)),
        Option::Some(sv) => match sv {
            TagV::Int32(sz) => {
                if sz < 1 {
                    Err(InvalidHeaderError::InvalidFieldValue(HeaderField::Size))
                } else {
                    match dict_get(es, key_type()) {
                        Option::None => Err(InvalidHeaderError::MissingField(HeaderField::TypeCode)),
                        Option::Some(tv) => match tv {
                            TagV::Int32(code) => {
                                if !(0 <= code <= 4) {
                                    Err(InvalidHeaderError::WrongDataType(code))
                                } else {
                                    let dtype = if code == 0 {
                                        DataType::Byte
                                    } else if code == 1 {
                                        DataType::Short
                                    } else if code == 2 {
                                        DataType::Int
                                    } else if code == 3 {
                                        DataType::Float
                                    } else {
                                        DataType::Double
                                    };
                                    match dict_get(es, key_cplx()) {
                                        Option::None => Err(
                                            InvalidHeaderError::MissingField(HeaderField::Cplx),
                                        ),
                                        Option::Some(cv) => match cv {
                                            TagV::Bool(cplx) => match dict_get(es, key_strt()) {
                                                Option::None => Err(
                                                    InvalidHeaderError::MissingField(
                                                        HeaderField::Strt,
                                                    ),
                                                ),
                                                Option::Some(stv) => match stv {
                                                    TagV::UInt64(strt) => match dict_get(
                                                        es,
                                                        key_bytes(),
                                                    ) {
                                                        Option::None => Err(
                                                            InvalidHeaderError::MissingField(
                                                                HeaderField::Bytes,
                                                            ),
                                                        ),
                                                        Option::Some(bv) => match bv {
                                                            TagV::UInt64(by) => {
                                                                let sb = sz * (if cplx {
                                                                    2int
                                                                } else {
                                                                    1int
                                                                });
                                                                if (by as int) % sb != 0 {
                                                                    Err(
                                                                        InvalidHeaderError::InvalidFieldValue(
                                                                            HeaderField::Bytes,
                                                                        ),
                                                                    )
                                                                } else if abs_pos + by
                                                                    > u64::MAX {
                                                                    Err(
                                                                        InvalidHeaderError::InvalidFieldValue(
                                                                            HeaderField::Bytes,
                                                                        ),
                                                                    )
                                                                } else {
                                                                    Ok(
                                                                        HeaderV {
                                                                            samp_rate_bits: rate_bits,
                                                                            samp_dur_units: dur,
                                                                            rx_time_units: rx_units,
                                                                            size: sz as u32,
                                                                            dtype,
                                                                            cplx,
                                                                            strt,
                                                                            bytes: by,
                                                                            extra_dict: extra,
                                                                            abs_pos,
                                                                            pos_in_file,
                                                                        },
                                                                    )
                                                                }
                                                            },
                                                            _ => Err(
                                                                InvalidHeaderError::WrongTypeField(
                                                                    HeaderField::Bytes,
                                                                ),
                                                            ),
                                                        },
                                                    },
                                                    _ => Err(
                                                        InvalidHeaderError::WrongTypeField(
                                                            HeaderField::Strt,
                                                        ),
                                                    ),
                                                },
                                            },
                                            _ => Err(
                                                InvalidHeaderError::WrongTypeField(
                                                    HeaderField::Cplx,
                                                ),
                                            ),
                                        },
                                    }
                                }
                            },
                            _ => Err(InvalidHeaderError::WrongTypeField(HeaderField::TypeCode)),
                        },
                    }
                }
            },
            _ => Err(InvalidHeaderError::WrongTypeField(HeaderField::Size)),
        },
    }
}

impl Header {
    /// Builds a header from a parsed header record and its extra record.
    ///
    /// `pos_in_file` is where the header record itself starts and
    /// `abs_pos` where its segment's data starts; both are computed by the
    /// loader from the wire layout, as the record's own `strt` field is
    /// only the producer's claim. The header then owns the extra record.
    pub fn from_tags(pos_in_file: u64, abs_pos: u64, tag: Tag, extra: Tag) -> (r: Result<
        Header,
        InvalidHeaderError,
    >)
        ensures
            r matches Ok(h) ==> spec_from_tags(pos_in_file, abs_pos, tag@, extra@) == Ok::<
                HeaderV,
                InvalidHeaderError,
            >(h@) && h.wf(),
            r matches Err(e) ==> spec_from_tags(pos_in_file, abs_pos, tag@, extra@) == Err::<
                HeaderV,
                InvalidHeaderError,
            >(e),
    {
        let es = match tag {
            Tag::Dict(es) => es,
            _ => {
                return Err(InvalidHeaderError::HeaderNotDictionary);
            },
        };
        let rate_key: Vec<u8> = vec![0x72u8, 0x78u8, 0x5fu8, 0x72u8, 0x61u8, 0x74u8, 0x65u8];
        proof {
            assert(rate_key@ =~= key_rx_rate());
        }
        let rate_bits: u64 = match dict_find(&es, &rate_key) {
            None => {
                return Err(InvalidHeaderError::MissingField(HeaderField::RxRate));
            },
            Some(t) => match t {
                Tag::Double(b) => *b,
                _ => {
                    return Err(InvalidHeaderError::WrongTypeField(HeaderField::RxRate));
                },
            },
        };
        let dur: i128 = match rate_duration_units(rate_bits) {
            None => {
                return Err(InvalidHeaderError::InvalidFieldValue(HeaderField::RxRate));
            },
            Some(d) => d,
        };
        let time_key: Vec<u8> = vec![0x72u8, 0x78u8, 0x5fu8, 0x74u8, 0x69u8, 0x6du8, 0x65u8];
        proof {
            assert(time_key@ =~= key_rx_time());
        }
        let (secs, frac_bits): (u64, u64) = match dict_find(&es, &time_key) {
            None => {
                return Err(InvalidHeaderError::MissingField(HeaderField::RxTimeField));
            },
            Some(t) => match t {
                Tag::Tuple(items) => {
                    proof {
                        crate::pmt::lemma_tags_view(items@);
                    }
                    if items.len() < 1 {
                        return Err(InvalidHeaderError::MissingField(HeaderField::RxTimeSecs));
                    }
                    if items.len() < 2 {
                        return Err(InvalidHeaderError::MissingField(HeaderField::RxTimeFrac));
                    }
                    let a: u64 = match &items[0] {
                        Tag::UInt64(v) => *v,
                        _ => {
                            return Err(InvalidHeaderError::WrongTypeField(HeaderField::RxTimeSecs));
                        },
                    };
                    let b: u64 = match &items[1] {
                        Tag::Double(v) => *v,
                        _ => {
                            return Err(InvalidHeaderError::WrongTypeField(HeaderField::RxTimeFrac));
                        },
                    };
                    (a, b)
                },
                _ => {
                    return Err(InvalidHeaderError::WrongTypeField(HeaderField::RxTimeField));
                },
            },
        };
        let fu: u64 = match frac_units(frac_bits) {
            None => {
                return Err(InvalidHeaderError::InvalidFieldValue(HeaderField::RxTimeFrac));
            },
            Some(u) => u,
        };
        if secs >= 0x8000_0000_0000_0000u64 {
            return Err(InvalidHeaderError::InvalidFieldValue(HeaderField::RxTimeSecs));
        }
        let rx_time = RxTime::new(secs as i64, fu);
        let size_key: Vec<u8> = vec![0x73u8, 0x69u8, 0x7au8, 0x65u8];
        proof {
            assert(size_key@ =~= key_size());
        }
        let sz: i32 = match dict_find(&es, &size_key) {
            None => {
                return Err(InvalidHeaderError::MissingField(HeaderField::Size));
            },
            Some(t) => match t {
                Tag::Int32(v) => *v,
                _ => {
                    return Err(InvalidHeaderError::WrongTypeField(HeaderField::Size));
                },
            },
        };
        if sz < 1 {
            return Err(InvalidHeaderError::InvalidFieldValue(HeaderField::Size));
        }
        let type_key: Vec<u8> = vec![0x74u8, 0x79u8, 0x70u8, 0x65u8];
        proof {
            assert(type_key@ =~= key_type());
        }
        let code: i32 = match dict_find(&es, &type_key) {
            None => {
                return Err(InvalidHeaderError::MissingField(HeaderField::TypeCode));
            },
            Some(t) => match t {
                Tag::Int32(v) => *v,
                _ => {
                    return Err(InvalidHeaderError::WrongTypeField(HeaderField::TypeCode));
                },
            },
        };
        let dtype = match DataType::from_int(code) {
            Ok(d) => d,
            Err(e) => {
                return Err(e);
            },
        };
        let cplx_key: Vec<u8> = vec![0x63u8, 0x70u8, 0x6cu8, 0x78u8];
        proof {
            assert(cplx_key@ =~= key_cplx());
        }
        let cplx: bool = match dict_find(&es, &cplx_key) {
            None => {
                return Err(InvalidHeaderError::MissingField(HeaderField::Cplx));
            },
            Some(t) => match t {
                Tag::Bool(v) => *v,
                _ => {
                    return Err(InvalidHeaderError::WrongTypeField(HeaderField::Cplx));
                },
            },
        };
        let strt_key: Vec<u8> = vec![0x73u8, 0x74u8, 0x72u8, 0x74u8];
        proof {
            assert(strt_key@ =~= key_strt());
        }
        let strt: u64 = match dict_find(&es, &strt_key) {
            None => {
                return Err(InvalidHeaderError::MissingField(HeaderField::Strt));
            },
            Some(t) => match t {
                Tag::UInt64(v) => *v,
                _ => {
                    return Err(InvalidHeaderError::WrongTypeField(HeaderField::Strt));
                },
            },
        };
        let bytes_key: Vec<u8> = vec![0x62u8, 0x79u8, 0x74u8, 0x65u8, 0x73u8];
        proof {
            assert(bytes_key@ =~= key_bytes());
        }
        let by: u64 = match dict_find(&es, &bytes_key) {
            None => {
                return Err(InvalidHeaderError::MissingField(HeaderField::Bytes));
            },
            Some(t) => match t {
                Tag::UInt64(v) => *v,
                _ => {
                    return Err(InvalidHeaderError::WrongTypeField(HeaderField::Bytes));
                },
            },
        };
        let sb: u64 = (sz as u64) * (if cplx {
            2
        } else {
            1
        });
        if by % sb != 0 {
            return Err(InvalidHeaderError::InvalidFieldValue(HeaderField::Bytes));
        }
        if by > u64::MAX - abs_pos {
            return Err(InvalidHeaderError::InvalidFieldValue(HeaderField::Bytes));
        }
        Ok(
            Header {
                samp_rate_bits: rate_bits,
                samp_dur: RxTime::from_units(dur),
                rx_time,
                size: sz as u32,
                dtype,
                cplx,
                strt,
                bytes: by,
                extra_dict: extra,
                abs_pos,
                pos_in_file,
            },
        )
    }
}

} // verus!
