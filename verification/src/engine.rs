//! The byte-to-header index, the header readers, and the sample read/seek
//! engine.
//!
//! Headers are discovered strictly left to right and recorded in a
//! [`HeaderStorage`], an append-only index from a segment's first absolute
//! byte to its header. The engine composes a byte-seekable source with a
//! header reader to expose sample-granular reads, converting reads, and
//! guarded seeks.

use vstd::prelude::*;

use crate::header::{
    header_like, scalar_converts, spec_compatible_h, spec_converts_to, spec_from_tags,
    spec_is_continuation_h, spec_reads_directly_to, DataType, Header, HeaderV, InvalidHeaderError,
    ScalarType, SeekPreserve, TargetFormat,
};
use crate::pmt::{spec_parse, ParseError, SpecParse, Tag, TagV};
use crate::rxtime::RxTime;
use crate::source::ByteSource;

verus! {

/// Any failure surfaced by header discovery, reading or seeking.
#[derive(Clone, Copy, Debug, PartialEq, Eq, Structural)]
pub enum MetaFileError {
    /// The underlying source failed, or ended where data was promised.
    IoError,
    /// A header record did not parse.
    ParseError(ParseError),
    /// A header record parsed but named no valid header.
    InvalidHeader(InvalidHeaderError),
    /// A loaded header does not extend the index past the previous segment,
    /// so forward discovery cannot make progress.
    NonMonotonicHeader,
    /// A seek destination exists but violates the preserve level.
    SeekConstraint,
    /// A seek destination lies outside the stream.
    SeekOutOfBounds,
}

/// One indexed segment: its first absolute byte in the binary stream, the
/// global index of its first sample, and its header.
#[derive(Debug)]
pub struct SegmentEntry {
    /// The first absolute byte this entry governs: the header record's
    /// start for attached headers, the data start for detached ones.
    pub key: u64,
    /// The global sample index of the segment's first sample.
    pub first_sample: u64,
    /// The segment's header.
    pub header: Header,
}

/// Two entries with the same position fields and the same header shape.
pub open spec fn entry_like(a: &SegmentEntry, b: &SegmentEntry) -> bool {
    a.key == b.key && a.first_sample == b.first_sample && header_like(&a.header, &b.header)
}

impl Clone for SegmentEntry {
    /// A copy whose header has the same mathematical shape.
    fn clone(&self) -> (r: SegmentEntry)
        ensures
            entry_like(&r, self),
    {
        SegmentEntry {
            key: self.key,
            first_sample: self.first_sample,
            header: self.header.clone(),
        }
    }
}

/// Facts local to one indexed segment: a well-formed header, a key at or
/// before the data start, and at least one governed byte.
pub open spec fn entry_ok(e: SegmentEntry) -> bool {
    &&& e.header.wf()
    &&& e.key <= e.header.abs_pos
    &&& e.key < e.header.spec_end()
    &&& e.first_sample <= e.header.abs_pos
}

/// Well-formedness of the index: every entry is locally sound, the entries
/// tile the byte stream from zero with strictly increasing keys, and the
/// global sample counters accumulate across entries.
pub open spec fn entries_wf(s: Seq<SegmentEntry>) -> bool
    decreases s.len(),
{
    if s.len() == 0 {
        true
    } else {
        &&& entries_wf(s.drop_last())
        &&& entry_ok(s.last())
        &&& s.last().key == spec_hw(s.drop_last())
        &&& s.last().first_sample == spec_total_samples(s.drop_last())
    }
}

/// The byte just past everything the index governs.
pub open spec fn spec_hw(s: Seq<SegmentEntry>) -> int {
    if s.len() == 0 {
        0
    } else {
        s[s.len() - 1].header.spec_end()
    }
}

/// The global sample index just past everything the index governs.
pub open spec fn spec_total_samples(s: Seq<SegmentEntry>) -> int {
    if s.len() == 0 {
        0
    } else {
        s[s.len() - 1].first_sample + s[s.len() - 1].header.spec_ns()
    }
}

/// A prefix of a well-formed index is well formed.
pub proof fn lemma_entries_wf_prefix(s: Seq<SegmentEntry>, n: int)
    requires
        entries_wf(s),
        0 <= n <= s.len(),
    ensures
        entries_wf(s.subrange(0, n)),
    decreases s.len() - n,
{
    if n < s.len() {
        assert(s.subrange(0, s.len() as int) =~= s);
        assert(s.subrange(0, s.len() - 1) =~= s.drop_last());
        lemma_entries_wf_prefix(s.drop_last(), n);
        assert(s.drop_last().subrange(0, n) =~= s.subrange(0, n));
    } else {
        assert(s.subrange(0, n) =~= s);
    }
}

/// The per-index facts of a well-formed index: each entry is locally
/// sound, starts where its predecessor ended (at zero for the first), and
/// continues the global sample count.
pub proof fn lemma_wf_entry(s: Seq<SegmentEntry>, i: int)
    requires
        entries_wf(s),
        0 <= i < s.len(),
    ensures
        entry_ok(s[i]),
        s[i].key == (if i == 0 {
            0int
        } else {
            s[i - 1].header.spec_end()
        }),
        s[i].first_sample == (if i == 0 {
            0int
        } else {
            s[i - 1].first_sample + s[i - 1].header.spec_ns()
        }),
    decreases s.len(),
{
    if i == s.len() - 1 {
        if i > 0 {
            assert(s.drop_last()[i - 1] == s[i - 1]);
        }
    } else {
        assert(forall|j: int| 0 <= j < s.len() - 1 ==> s.drop_last()[j] == s[j]);
        lemma_wf_entry(s.drop_last(), i);
    }
}

/// The index of the entry governing an absolute byte, if one is loaded:
/// the entry with the greatest key at or below the byte, provided the byte
/// lies before that segment's end.
pub open spec fn spec_lookup(s: Seq<SegmentEntry>, byte: int) -> Option<int>
    decreases s.len(),
{
    if s.len() == 0 {
        Option::None
    } else {
        let last = s[s.len() - 1];
        if last.key <= byte {
            if byte < last.header.spec_end() {
                Option::Some(s.len() - 1)
            } else {
                Option::None
            }
        } else {
            spec_lookup(s.drop_last(), byte)
        }
    }
}

/// What a successful lookup means, and that lookups fail exactly past the
/// high-water mark.
pub proof fn lemma_lookup(s: Seq<SegmentEntry>, byte: int)
    requires
        entries_wf(s),
    ensures
        spec_lookup(s, byte) matches Some(i) ==> 0 <= i < s.len() && s[i].key <= byte
            < s[i].header.spec_end(),
        spec_lookup(s, byte) is None <==> !(0 <= byte < spec_hw(s)),
    decreases s.len(),
{
    if s.len() > 0 {
        assert(forall|j: int| 0 <= j < s.len() - 1 ==> s.drop_last()[j] == s[j]);
        lemma_wf_entry(s, s.len() - 1);
        lemma_lookup(s.drop_last(), byte);
    }
}

/// Keys increase strictly along the index, so no later discovery ever
/// indexes a byte below an earlier one.
pub proof fn lemma_entries_keys_increase(s: Seq<SegmentEntry>)
    requires
        entries_wf(s),
    ensures
        forall|i: int, j: int| 0 <= i < j < s.len() ==> s[i].key < s[j].key,
{
    assert forall|i: int, j: int| 0 <= i < j < s.len() implies s[i].key < s[j].key by {
        lemma_key_below_end(s, i, j);
    }
}

/// A key lies strictly below every later key.
proof fn lemma_key_below_end(s: Seq<SegmentEntry>, i: int, j: int)
    requires
        entries_wf(s),
        0 <= i < j < s.len(),
    ensures
        s[i].key < s[j].key,
    decreases j - i,
{
    lemma_wf_entry(s, j);
    if j == i + 1 {
        lemma_wf_entry(s, i);
    } else {
        lemma_key_below_end(s, i, j - 1);
        lemma_wf_entry(s, j - 1);
    }
}

/// An entry that covers a byte is the one the lookup finds.
pub proof fn lemma_lookup_found(s: Seq<SegmentEntry>, i: int, byte: int)
    requires
        entries_wf(s),
        0 <= i < s.len(),
        s[i].key <= byte < s[i].header.spec_end(),
    ensures
        spec_lookup(s, byte) == Some(i),
    decreases s.len(),
{
    let n = s.len() - 1;
    if i < n {
        lemma_wf_entry(s, i + 1);
        if i + 1 < n {
            lemma_key_below_end(s, i + 1, n);
        }
        assert(byte < s[n].key);
        assert(s.drop_last() =~= s.subrange(0, n));
        lemma_entries_wf_prefix(s, n);
        lemma_lookup_found(s.drop_last(), i, byte);
    }
}

/// The append-only sparse index from byte offsets to headers. It only ever
/// grows, in strictly increasing key order; the lazy-loading discipline of
/// the header readers supplies entries in that order.
#[derive(Debug)]
pub struct HeaderStorage {
    entries: Vec<SegmentEntry>,
}

impl View for HeaderStorage {
    type V = Seq<SegmentEntry>;

    closed spec fn view(&self) -> Seq<SegmentEntry> {
        self.entries@
    }
}

impl HeaderStorage {
    /// Well-formedness of the index.
    pub open spec fn wf(&self) -> bool {
        entries_wf(self@)
    }

    /// An empty index.
    pub fn new() -> (r: HeaderStorage)
        ensures
            r@ == Seq::<SegmentEntry>::empty(),
            r.wf(),
    {
        HeaderStorage { entries: Vec::new() }
    }

    /// Number of indexed segments.
    pub fn num_segments(&self) -> (r: usize)
        ensures
            r == self@.len(),
    {
        self.entries.len()
    }

    /// The indexed segment at an ordinal.
    pub fn segment_at(&self, i: usize) -> (r: &SegmentEntry)
        requires
            i < self@.len(),
        ensures
            *r == self@[i as int],
    {
        &self.entries[i]
    }

    /// The byte just past everything indexed so far.
    pub fn high_water(&self) -> (r: u64)
        requires
            self.wf(),
        ensures
            r == spec_hw(self@),
    {
        if self.entries.len() == 0 {
            0
        } else {
            proof {
                lemma_wf_entry(self@, self@.len() - 1);
            }
            let last = &self.entries[self.entries.len() - 1];
            last.header.abs_pos + last.header.bytes
        }
    }

    /// The global sample index just past everything indexed so far.
    pub fn total_samples(&self) -> (r: u64)
        requires
            self.wf(),
        ensures
            r == spec_total_samples(self@),
    {
        if self.entries.len() == 0 {
            0
        } else {
            proof {
                lemma_wf_entry(self@, self@.len() - 1);
                lemma_num_samples_le_bytes(&self@[self@.len() - 1].header);
            }
            let last = &self.entries[self.entries.len() - 1];
            last.first_sample + last.header.get_num_samples()
        }
    }

    /// The entry governing a byte, or nothing if that byte is not yet
    /// indexed.
    pub fn get_header_for_byte(&self, byte: u64) -> (r: Option<&SegmentEntry>)
        requires
            self.wf(),
        ensures
            r matches Some(e) ==> spec_lookup(self@, byte as int) matches Some(i) && *e
                == self@[i],
            r is None ==> spec_lookup(self@, byte as int) is None,
    {
        let mut i: usize = 0;
        while i < self.entries.len()
            invariant
                self.wf(),
                i <= self@.len(),
                forall|j: int|
                    0 <= j < i ==> !((#[trigger] self@[j]).key <= byte && byte
                        < self@[j].header.spec_end()),
            decreases self@.len() - i,
        {
            proof {
                lemma_wf_entry(self@, i as int);
            }
            let e = &self.entries[i];
            if e.key <= byte && byte < e.header.abs_pos + e.header.bytes {
                proof {
                    lemma_lookup_found(self@, i as int, byte as int);
                }
                return Some(&self.entries[i]);
            }
            i = i + 1;
        }
        proof {
            lemma_lookup(self@, byte as int);
            if spec_lookup(self@, byte as int) is Some {
                let k = spec_lookup(self@, byte as int)->0;
                assert(!(self@[k].key <= byte && byte < self@[k].header.spec_end()));
            }
        }
        None
    }

    /// The ordinal of the entry governing a byte, if one is loaded.
    pub fn lookup_index(&self, byte: u64) -> (r: Option<usize>)
        requires
            self.wf(),
        ensures
            r matches Some(i) ==> spec_lookup(self@, byte as int) == Some(i as int),
            r is None ==> spec_lookup(self@, byte as int) is None,
    {
        let mut i: usize = 0;
        while i < self.entries.len()
            invariant
                self.wf(),
                i <= self@.len(),
                forall|j: int|
                    0 <= j < i ==> !((#[trigger] self@[j]).key <= byte && byte
                        < self@[j].header.spec_end()),
            decreases self@.len() - i,
        {
            proof {
                lemma_wf_entry(self@, i as int);
            }
            let e = &self.entries[i];
            if e.key <= byte && byte < e.header.abs_pos + e.header.bytes {
                proof {
                    lemma_lookup_found(self@, i as int, byte as int);
                }
                return Some(i);
            }
            i = i + 1;
        }
        proof {
            lemma_lookup(self@, byte as int);
            if spec_lookup(self@, byte as int) is Some {
                let k = spec_lookup(self@, byte as int)->0;
                assert(!(self@[k].key <= byte && byte < self@[k].header.spec_end()));
            }
        }
        None
    }

    /// The ordinal of the entry whose segment holds a global sample, if
    /// one is loaded.
    pub fn lookup_sample_index(&self, g: u64) -> (r: Option<usize>)
        requires
            self.wf(),
        ensures
            r matches Some(i) ==> spec_sample_lookup(self@, g as int) == Some(i as int),
            r is None ==> spec_sample_lookup(self@, g as int) is None,
    {
        let mut i: usize = 0;
        while i < self.entries.len()
            invariant
                self.wf(),
                i <= self@.len(),
                forall|j: int|
                    0 <= j < i ==> !((#[trigger] self@[j]).first_sample <= g && g
                        < self@[j].first_sample + self@[j].header.spec_ns()),
            decreases self@.len() - i,
        {
            proof {
                lemma_wf_entry(self@, i as int);
                lemma_num_samples_le_bytes(&self@[i as int].header);
            }
            let e = &self.entries[i];
            if e.first_sample <= g && g < e.first_sample + e.header.get_num_samples() {
                proof {
                    lemma_sample_lookup_found(self@, i as int, g as int);
                }
                return Some(i);
            }
            i = i + 1;
        }
        proof {
            lemma_sample_lookup(self@, g as int);
            if spec_sample_lookup(self@, g as int) is Some {
                let k = spec_sample_lookup(self@, g as int)->0;
                assert(!(self@[k].first_sample <= g && g < self@[k].first_sample
                    + self@[k].header.spec_ns()));
            }
        }
        None
    }

    /// Appends the header governing from `byte` on; the caller supplies
    /// entries in strictly increasing order, each starting exactly where
    /// the previous segment ended.
    pub fn add_header_for_byte(&mut self, byte: u64, header: Header)
        requires
            old(self).wf(),
            header.wf(),
            byte == spec_hw(old(self)@),
            byte <= header.abs_pos,
            byte < header.spec_end(),
        ensures
            final(self).wf(),
            final(self)@ == old(self)@.push(
                SegmentEntry {
                    key: byte,
                    first_sample: spec_total_samples(old(self)@) as u64,
                    header,
                },
            ),
    {
        let fs = self.total_samples();
        proof {
            lemma_num_samples_le_bytes(&header);
            if self@.len() > 0 {
                lemma_wf_entry(self@, self@.len() - 1);
                lemma_num_samples_le_bytes(&self@[self@.len() - 1].header);
            }
        }
        self.entries.push(SegmentEntry { key: byte, first_sample: fs, header });
        proof {
            assert(self@.drop_last() =~= old(self)@);
        }
    }
}

/// A segment holds no more samples than bytes.
pub proof fn lemma_num_samples_le_bytes(h: &Header)
    requires
        h.wf(),
    ensures
        0 <= h.spec_ns() <= h.bytes,
{
    vstd::arithmetic::div_mod::lemma_div_is_ordered_by_denominator(
        h.bytes as int,
        1,
        h.spec_sb(),
    );
    vstd::arithmetic::div_mod::lemma_div_pos_is_pos(h.bytes as int, h.spec_sb());
}

/// Bytes of one scalar of a target format.
pub open spec fn scalar_width(sc: ScalarType) -> int {
    match sc {
        ScalarType::I8 => 1,
        ScalarType::U8 => 1,
        ScalarType::I16 => 2,
        ScalarType::U16 => 2,
        ScalarType::I32 => 4,
        ScalarType::U32 => 4,
        ScalarType::I64 => 8,
        ScalarType::U64 => 8,
        ScalarType::F32 => 4,
        ScalarType::F64 => 8,
    }
}

/// Bytes of one whole element of a target format.
pub open spec fn fmt_width(t: TargetFormat) -> int {
    match t {
        TargetFormat::Scalar(sc) => scalar_width(sc),
        TargetFormat::Complex(sc) => 2 * scalar_width(sc),
    }
}

/// Bytes of one scalar of an element encoding.
pub open spec fn dtype_width(dt: DataType) -> int {
    match dt {
        DataType::Byte => 1,
        DataType::Short => 2,
        DataType::Int => 4,
        DataType::Float => 4,
        DataType::Double => 8,
    }
}

/// The signed value of a little-endian two's-complement scalar of an
/// integer encoding.
pub open spec fn spec_scalar_int(dt: DataType, s: Seq<u8>) -> int {
    match dt {
        DataType::Byte => if s[0] < 128 {
            s[0] as int
        } else {
            s[0] - 256
        },
        DataType::Short => {
            let v = s[0] + 256 * s[1];
            if v < 0x8000 {
                v
            } else {
                v - 0x1_0000
            }
        },
        _ => {
            let v = s[0] + 256 * s[1] + 0x1_0000 * s[2] + 0x100_0000 * s[3];
            if v < 0x8000_0000 {
                v
            } else {
                v - 0x1_0000_0000
            }
        },
    }
}

/// A single-precision value carried as its bit pattern, so that sample
/// data can travel without floating-point arithmetic.
#[derive(Copy, Clone, Debug, PartialEq, Eq, Structural)]
pub struct F32Bits(pub u32);

/// A double-precision value carried as its bit pattern.
#[derive(Copy, Clone, Debug, PartialEq, Eq, Structural)]
pub struct F64Bits(pub u64);

/// An interleaved real/imaginary pair of scalar elements.
#[derive(Copy, Clone, Debug, PartialEq, Eq)]
pub struct Cpx<T> {
    pub re: T,
    pub im: T,
}

/// One sample read from its stored encoding: integer values directly, the
/// floating encodings as their bit patterns.
#[derive(Copy, Clone, Debug, PartialEq, Eq, Structural)]
pub enum SampleValue {
    I8(i8),
    I16(i16),
    I32(i32),
    F32(u32),
    F64(u64),
}

/// The typed value of one scalar stored in an encoding.
pub open spec fn spec_read_sample(dt: DataType, s: Seq<u8>) -> SampleValue {
    match dt {
        DataType::Byte => SampleValue::I8(spec_scalar_int(dt, s) as i8),
        DataType::Short => SampleValue::I16(spec_scalar_int(dt, s) as i16),
        DataType::Int => SampleValue::I32(spec_scalar_int(dt, s) as i32),
        DataType::Float => SampleValue::F32(spec_le_u32(s) as u32),
        DataType::Double => SampleValue::F64(spec_le_u64(s) as u64),
    }
}

/// The value-preserving conversion of one stored scalar to an integer
/// target up the lattice; nothing for a disallowed pair or for a
/// floating-point target, whose conversion is floating-point arithmetic
/// and lives outside the verified core.
pub open spec fn spec_convert_sample(dt: DataType, s: Seq<u8>, target: ScalarType) -> Option<
    SampleValue,
> {
    if !scalar_converts(dt, target) {
        Option::None
    } else {
        match target {
            ScalarType::I8 => Option::Some(SampleValue::I8(spec_scalar_int(dt, s) as i8)),
            ScalarType::I16 => Option::Some(SampleValue::I16(spec_scalar_int(dt, s) as i16)),
            ScalarType::I32 => Option::Some(SampleValue::I32(spec_scalar_int(dt, s) as i32)),
            _ => Option::None,
        }
    }
}

impl DataType {
    /// Reads the scalar stored at `start` in this encoding, with no
    /// conversion of any kind.
    pub fn read_from_bytes(&self, bytes: &Vec<u8>, start: usize) -> (r: SampleValue)
        requires
            start + dtype_width(*self) <= bytes@.len(),
        ensures
            r == spec_read_sample(
                *self,
                bytes@.subrange(start as int, start + dtype_width(*self)),
            ),
    {
        match *self {
            DataType::Byte => SampleValue::I8(decode_int_scalar(*self, bytes, start) as i8),
            DataType::Short => SampleValue::I16(decode_int_scalar(*self, bytes, start) as i16),
            DataType::Int => SampleValue::I32(decode_int_scalar(*self, bytes, start)),
            DataType::Float => SampleValue::F32(F32Bits::decode(bytes, start).0),
            DataType::Double => SampleValue::F64(F64Bits::decode(bytes, start).0),
        }
    }

    /// Converts the scalar stored at `start` in this encoding to an
    /// integer target of the lattice, preserving its value exactly;
    /// nothing for a disallowed pair or a floating-point target.
    pub fn convert_to(&self, bytes: &Vec<u8>, start: usize, target: ScalarType) -> (r: Option<
        SampleValue,
    >)
        requires
            start + dtype_width(*self) <= bytes@.len(),
        ensures
            r == spec_convert_sample(
                *self,
                bytes@.subrange(start as int, start + dtype_width(*self)),
                target,
            ),
    {
        if !self.scalar_converts_to(target) {
            return None;
        }
        match target {
            ScalarType::I8 => Some(SampleValue::I8(decode_int_scalar(*self, bytes, start) as i8)),
            ScalarType::I16 => Some(
                SampleValue::I16(decode_int_scalar(*self, bytes, start) as i16),
            ),
            ScalarType::I32 => Some(SampleValue::I32(decode_int_scalar(*self, bytes, start))),
            _ => None,
        }
    }
}

/// A caller-side element type samples can be read into. Sample data is
/// stored least significant byte first.
pub trait Element: Sized {
    /// The element's target format.
    spec fn fmt() -> TargetFormat;

    /// The value encoded by one element's bytes.
    spec fn decode_spec(s: Seq<u8>) -> Self;

    /// The element's target format, as a value.
    fn fmt_val() -> (f: TargetFormat)
        ensures
            f == Self::fmt(),
    ;

    /// The element's width in bytes.
    fn width() -> (w: usize)
        ensures
            w == fmt_width(Self::fmt()),
            1 <= w <= 16,
    ;

    /// Decodes the element stored at `start`.
    fn decode(bytes: &Vec<u8>, start: usize) -> (r: Self)
        requires
            start + fmt_width(Self::fmt()) <= bytes@.len(),
        ensures
            r == Self::decode_spec(bytes@.subrange(start as int, start + fmt_width(Self::fmt()))),
    ;
}

impl Element for i8 {
    open spec fn fmt() -> TargetFormat {
        TargetFormat::Scalar(ScalarType::I8)
    }

    fn fmt_val() -> TargetFormat {
        TargetFormat::Scalar(ScalarType::I8)
    }

    open spec fn decode_spec(s: Seq<u8>) -> i8 {
        spec_scalar_int(DataType::Byte, s) as i8
    }

    fn width() -> usize {
        1
    }

    fn decode(bytes: &Vec<u8>, start: usize) -> (r: i8) {
        proof {
            assert(bytes@.len() == bytes.len());
            assert(bytes@.subrange(start as int, start + 1)[0] == bytes@[start as int]);
        }
        let b = bytes[start];
        if b < 128 {
            b as i8
        } else {
            ((b as i16) - 256) as i8
        }
    }
}

impl Element for i16 {
    open spec fn fmt() -> TargetFormat {
        TargetFormat::Scalar(ScalarType::I16)
    }

    fn fmt_val() -> TargetFormat {
        TargetFormat::Scalar(ScalarType::I16)
    }

    open spec fn decode_spec(s: Seq<u8>) -> i16 {
        spec_scalar_int(DataType::Short, s) as i16
    }

    fn width() -> usize {
        2
    }

    fn decode(bytes: &Vec<u8>, start: usize) -> (r: i16) {
        proof {
            assert(bytes@.len() == bytes.len());
            assert(bytes@.subrange(start as int, start + 2)[0] == bytes@[start as int]);
            assert(bytes@.subrange(start as int, start + 2)[1] == bytes@[start + 1]);
        }
        let v: u16 = (bytes[start] as u16) + 256 * (bytes[start + 1] as u16);
        if v < 0x8000 {
            v as i16
        } else {
            ((v as i32) - 0x1_0000) as i16
        }
    }
}

impl Element for i32 {
    open spec fn fmt() -> TargetFormat {
        TargetFormat::Scalar(ScalarType::I32)
    }

    fn fmt_val() -> TargetFormat {
        TargetFormat::Scalar(ScalarType::I32)
    }

    open spec fn decode_spec(s: Seq<u8>) -> i32 {
        spec_scalar_int(DataType::Int, s) as i32
    }

    fn width() -> usize {
        4
    }

    fn decode(bytes: &Vec<u8>, start: usize) -> (r: i32) {
        proof {
            assert(bytes@.len() == bytes.len());
            assert(bytes@.subrange(start as int, start + 4)[0] == bytes@[start as int]);
            assert(bytes@.subrange(start as int, start + 4)[1] == bytes@[start + 1]);
            assert(bytes@.subrange(start as int, start + 4)[2] == bytes@[start + 2]);
            assert(bytes@.subrange(start as int, start + 4)[3] == bytes@[start + 3]);
        }
        let v: u32 = (bytes[start] as u32) + 256 * (bytes[start + 1] as u32) + 0x1_0000 * (
        bytes[start + 2] as u32) + 0x100_0000 * (bytes[start + 3] as u32);
        if v < 0x8000_0000 {
            v as i32
        } else {
            ((v as i64) - 0x1_0000_0000i64) as i32
        }
    }
}

/// The unsigned little-endian value of four bytes.
pub open spec fn spec_le_u32(s: Seq<u8>) -> int {
    s[0] + 256 * s[1] + 0x1_0000 * s[2] + 0x100_0000 * s[3]
}

/// The unsigned little-endian value of eight bytes.
pub open spec fn spec_le_u64(s: Seq<u8>) -> int {
    s[0] + 256 * s[1] + 0x1_0000 * s[2] + 0x100_0000 * s[3] + 0x1_0000_0000 * s[4]
        + 0x100_0000_0000 * s[5] + 0x1_0000_0000_0000 * s[6] + 0x100_0000_0000_0000 * s[7]
}

impl Element for F32Bits {
    open spec fn fmt() -> TargetFormat {
        TargetFormat::Scalar(ScalarType::F32)
    }

    fn fmt_val() -> TargetFormat {
        TargetFormat::Scalar(ScalarType::F32)
    }

    open spec fn decode_spec(s: Seq<u8>) -> F32Bits {
        F32Bits(spec_le_u32(s) as u32)
    }

    fn width() -> usize {
        4
    }

    fn decode(bytes: &Vec<u8>, start: usize) -> (r: F32Bits) {
        proof {
            assert(bytes@.len() == bytes.len());
            assert(bytes@.subrange(start as int, start + 4)[0] == bytes@[start as int]);
            assert(bytes@.subrange(start as int, start + 4)[1] == bytes@[start + 1]);
            assert(bytes@.subrange(start as int, start + 4)[2] == bytes@[start + 2]);
            assert(bytes@.subrange(start as int, start + 4)[3] == bytes@[start + 3]);
        }
        F32Bits(
            (bytes[start] as u32) + 256 * (bytes[start + 1] as u32) + 0x1_0000 * (bytes[start
                + 2] as u32) + 0x100_0000 * (bytes[start + 3] as u32),
        )
    }
}

impl Element for F64Bits {
    open spec fn fmt() -> TargetFormat {
        TargetFormat::Scalar(ScalarType::F64)
    }

    fn fmt_val() -> TargetFormat {
        TargetFormat::Scalar(ScalarType::F64)
    }

    open spec fn decode_spec(s: Seq<u8>) -> F64Bits {
        F64Bits(spec_le_u64(s) as u64)
    }

    fn width() -> usize {
        8
    }

    fn decode(bytes: &Vec<u8>, start: usize) -> (r: F64Bits) {
        proof {
            assert(bytes@.len() == bytes.len());
            assert(bytes@.subrange(start as int, start + 8)[0] == bytes@[start as int]);
            assert(bytes@.subrange(start as int, start + 8)[1] == bytes@[start + 1]);
            assert(bytes@.subrange(start as int, start + 8)[2] == bytes@[start + 2]);
            assert(bytes@.subrange(start as int, start + 8)[3] == bytes@[start + 3]);
            assert(bytes@.subrange(start as int, start + 8)[4] == bytes@[start + 4]);
            assert(bytes@.subrange(start as int, start + 8)[5] == bytes@[start + 5]);
            assert(bytes@.subrange(start as int, start + 8)[6] == bytes@[start + 6]);
            assert(bytes@.subrange(start as int, start + 8)[7] == bytes@[start + 7]);
        }
        F64Bits(
            (bytes[start] as u64) + 256 * (bytes[start + 1] as u64) + 0x1_0000 * (bytes[start
                + 2] as u64) + 0x100_0000 * (bytes[start + 3] as u64) + 0x1_0000_0000 * (
            bytes[start + 4] as u64) + 0x100_0000_0000 * (bytes[start + 5] as u64)
                + 0x1_0000_0000_0000 * (bytes[start + 6] as u64) + 0x100_0000_0000_0000 * (
            bytes[start + 7] as u64),
        )
    }
}

/// The scalar type of a target format.
pub open spec fn fmt_scalar(t: TargetFormat) -> ScalarType {
    match t {
        TargetFormat::Scalar(sc) => sc,
        TargetFormat::Complex(sc) => sc,
    }
}

/// An element that is a plain scalar, fit to be one half of a complex
/// pair.
pub trait ScalarElement: Element {
    /// The element's format is a scalar one.
    proof fn scalar_fmt()
        ensures
            Self::fmt() is Scalar,
    ;
}

impl ScalarElement for i8 {
    proof fn scalar_fmt() {
    }
}

impl ScalarElement for i16 {
    proof fn scalar_fmt() {
    }
}

impl ScalarElement for i32 {
    proof fn scalar_fmt() {
    }
}

impl ScalarElement for F32Bits {
    proof fn scalar_fmt() {
    }
}

impl ScalarElement for F64Bits {
    proof fn scalar_fmt() {
    }
}

impl<T: ScalarElement> Element for Cpx<T> {
    open spec fn fmt() -> TargetFormat {
        TargetFormat::Complex(fmt_scalar(T::fmt()))
    }

    fn fmt_val() -> TargetFormat {
        match T::fmt_val() {
            TargetFormat::Scalar(sc) => TargetFormat::Complex(sc),
            TargetFormat::Complex(sc) => TargetFormat::Complex(sc),
        }
    }

    open spec fn decode_spec(s: Seq<u8>) -> Cpx<T> {
        let w = fmt_width(T::fmt());
        Cpx { re: T::decode_spec(s.subrange(0, w)), im: T::decode_spec(s.subrange(w, 2 * w)) }
    }

    fn width() -> (w: usize) {
        proof {
            T::scalar_fmt();
        }
        let sw = T::width();
        2 * sw
    }

    fn decode(bytes: &Vec<u8>, start: usize) -> (r: Cpx<T>) {
        proof {
            T::scalar_fmt();
        }
        let sw = T::width();
        proof {
            assert(bytes@.len() == bytes.len());
        }
        let re = T::decode(bytes, start);
        let im = T::decode(bytes, start + sw);
        proof {
            let w = fmt_width(T::fmt());
            let whole = bytes@.subrange(start as int, start + 2 * w);
            assert(whole.subrange(0, w) =~= bytes@.subrange(start as int, start + w));
            assert(whole.subrange(w, 2 * w) =~= bytes@.subrange(start + w, start + 2 * w));
        }
        Cpx { re, im }
    }
}

/// What loading one header from a header stream yields: the clean end of
/// the stream at a record boundary, the validated header with the position
/// just past its two records, or the first failure.
pub enum LoadOutcome {
    End,
    Got(HeaderV, int),
    Failed(MetaFileError),
}

/// The load outcome as a function of the header stream, the record
/// position, and (for a detached stream) the externally supplied data
/// start; an attached stream's data starts right after the extra record.
pub open spec fn spec_load(hs: Seq<u8>, p: int, abs_override: Option<u64>) -> LoadOutcome {
    if !(0 <= p <= u64::MAX) {
        LoadOutcome::Failed(MetaFileError::IoError)
    } else if p >= hs.len() {
        LoadOutcome::End
    } else {
        match spec_parse(hs, p) {
            SpecParse::Error(e) => LoadOutcome::Failed(MetaFileError::ParseError(e)),
            SpecParse::Parsed(t1, p1) => match spec_parse(hs, p1) {
                SpecParse::Error(e) => LoadOutcome::Failed(MetaFileError::ParseError(e)),
                SpecParse::Parsed(t2, p2) => {
                    let abs = match abs_override {
                        Option::Some(b) => b as int,
                        Option::None => p2,
                    };
                    if !(0 <= abs <= u64::MAX) {
                        LoadOutcome::Failed(MetaFileError::IoError)
                    } else {
                        match spec_from_tags(p as u64, abs as u64, t1, t2) {
                            Result::Ok(h) => LoadOutcome::Got(h, p2),
                            Result::Err(e) => LoadOutcome::Failed(
                                MetaFileError::InvalidHeader(e),
                            ),
                        }
                    }
                },
            },
        }
    }
}

/// The outcome the next load at `start_byte` must yield, over the
/// reader's modeled header stream, record position and strategy.
pub open spec fn load_outcome_parts(
    hs: Seq<u8>,
    p: int,
    separate: bool,
    start_byte: u64,
) -> LoadOutcome {
    spec_load(
        hs,
        p,
        if separate {
            Option::Some(start_byte)
        } else {
            Option::None
        },
    )
}

/// What the most recent read covered: the segment ordinal it drew from,
/// the sample offset of the run's first sample within that segment, and
/// how many samples the run returned.
#[derive(Copy, Clone, Debug, PartialEq, Eq, Structural)]
pub struct LastRun {
    /// Ordinal of the governing segment in the index.
    pub seg_index: usize,
    /// Sample offset of the run's first sample within the segment.
    pub start_offset: u64,
    /// Number of samples the run returned.
    pub count: u64,
}

/// Uniform lazy access to headers for both attached and detached streams.
///
/// The abstract state is the append-only index of discovered segments, the
/// binary stream's contents, the engine's read cursor, and the record of
/// the most recent read; loading a header changes none of them, recording
/// one appends to the index.
pub trait HeaderReader: Sized {
    /// The implementation's invariant.
    spec fn inv(&self) -> bool;

    /// The indexed segments, in discovery order.
    spec fn entries(&self) -> Seq<SegmentEntry>;

    /// The binary sample stream's contents.
    spec fn data(&self) -> Seq<u8>;

    /// The engine's read cursor, an absolute byte in the binary stream.
    spec fn cursor(&self) -> u64;

    /// The record of the most recent read.
    spec fn last_run(&self) -> Option<LastRun>;

    /// The contents of the stream that holds the header records: the
    /// binary stream itself for attached headers, the separate header
    /// stream for detached ones.
    spec fn header_stream(&self) -> Seq<u8>;

    /// Where the next header record for a load at `start_byte` begins in
    /// that stream: `start_byte` itself for attached headers, the header
    /// stream's own position for detached ones.
    spec fn record_pos(&self, start_byte: u64) -> int;

    /// Whether headers live in a separate, positionally synchronized
    /// stream rather than interleaved with the data.
    spec fn uses_separate_header_stream(&self) -> bool;

    /// The invariant keeps the index well formed and the stream
    /// byte-addressable.
    proof fn inv_facts(&self)
        requires
            self.inv(),
        ensures
            entries_wf(self.entries()),
            self.data().len() <= u64::MAX,
    ;

    /// Loads the next header from the stream that holds headers.
    /// `start_byte` is the first byte of that header's segment in the
    /// binary stream (for attached headers, of the header record itself).
    /// Yields nothing only on a clean end of stream at a record boundary;
    /// otherwise the result is exactly what parsing and validating the two
    /// records at the modeled record position yields, outcome for outcome,
    /// with only an I/O failure of the underlying source unaccounted.
    fn load_next_header(&mut self, start_byte: u64) -> (r: Result<Option<Header>, MetaFileError>)
        requires
            old(self).inv(),
        ensures
            final(self).inv(),
            final(self).entries() == old(self).entries(),
            final(self).data() == old(self).data(),
            final(self).cursor() == old(self).cursor(),
            final(self).last_run() == old(self).last_run(),
            final(self).header_stream() == old(self).header_stream(),
            final(self).uses_separate_header_stream() == old(self).uses_separate_header_stream(),
            r matches Ok(Some(h)) ==> h.wf() && start_byte <= h.abs_pos,
            r matches Err(e) ==> e != MetaFileError::SeekOutOfBounds && e != MetaFileError::SeekConstraint,
            r matches Ok(None::<Header>) ==> load_outcome_parts(
                old(self).header_stream(),
                old(self).record_pos(start_byte),
                old(self).uses_separate_header_stream(),
                start_byte,
            )
                == LoadOutcome::End,
            load_outcome_parts(
                old(self).header_stream(),
                old(self).record_pos(start_byte),
                old(self).uses_separate_header_stream(),
                start_byte,
            ) == LoadOutcome::End ==> r matches Ok(
                None::<Header>,
            ) || r == Err::<Option<Header>, MetaFileError>(MetaFileError::IoError),
            r matches Ok(Some(h)) ==> load_outcome_parts(
                old(self).header_stream(),
                old(self).record_pos(start_byte),
                old(self).uses_separate_header_stream(),
                start_byte,
            ) matches
                LoadOutcome::Got(hv, pend) && h@ == hv,
            load_outcome_parts(
                old(self).header_stream(),
                old(self).record_pos(start_byte),
                old(self).uses_separate_header_stream(),
                start_byte,
            ) matches LoadOutcome::Got(hv2, pend2) ==> r
                matches Ok(Some(h3)) || r == Err::<Option<Header>, MetaFileError>(
                MetaFileError::IoError,
            ),
            r matches Err(e) ==> e == MetaFileError::IoError || load_outcome_parts(
                old(self).header_stream(),
                old(self).record_pos(start_byte),
                old(self).uses_separate_header_stream(),
                start_byte,
            ) == LoadOutcome::Failed(e),
            r matches Ok(Some(h4)) ==> !old(self).uses_separate_header_stream() || forall|
                y: u64,
            |
                #[trigger] final(self).record_pos(y) == load_outcome_parts(
                    old(self).header_stream(),
                    old(self).record_pos(start_byte),
                    old(self).uses_separate_header_stream(),
                    start_byte,
                )->Got_1,
            !old(self).uses_separate_header_stream() ==> forall|y: u64|
                #[trigger] final(self).record_pos(y) == old(self).record_pos(y),
            !(r matches Ok(Some(h5))) ==> forall|y: u64|
                #[trigger] final(self).record_pos(y) == old(self).record_pos(y),
    ;

    /// Looks a byte up in the already indexed segments.
    fn storage_find(&self, byte: u64) -> (r: Option<SegmentEntry>)
        requires
            self.inv(),
        ensures
            r matches Some(e) ==> spec_lookup(self.entries(), byte as int) matches Some(i)
                && entry_like(&e, &self.entries()[i]),
            r is None ==> spec_lookup(self.entries(), byte as int) is None,
    ;

    /// Number of segments indexed so far.
    fn segment_count(&self) -> (r: usize)
        requires
            self.inv(),
        ensures
            r == self.entries().len(),
    ;

    /// The indexed segment at an ordinal.
    fn segment_at_ord(&self, i: usize) -> (r: SegmentEntry)
        requires
            self.inv(),
            i < self.entries().len(),
        ensures
            entry_like(&r, &self.entries()[i as int]),
    ;

    /// The byte at which the next header must be discovered: just past the
    /// last indexed segment, the start of the stream when none is.
    fn get_first_byte_of_next_header_to_read(&self) -> (r: u64)
        requires
            self.inv(),
        ensures
            r == spec_hw(self.entries()),
    ;

    /// Appends a discovered header to the index.
    fn record_header(&mut self, byte: u64, header: Header)
        requires
            old(self).inv(),
            header.wf(),
            byte == spec_hw(old(self).entries()),
            byte <= header.abs_pos,
            byte < header.spec_end(),
        ensures
            final(self).inv(),
            final(self).entries() == old(self).entries().push(
                SegmentEntry {
                    key: byte,
                    first_sample: spec_total_samples(old(self).entries()) as u64,
                    header,
                },
            ),
            final(self).data() == old(self).data(),
            final(self).cursor() == old(self).cursor(),
            final(self).last_run() == old(self).last_run(),
            final(self).header_stream() == old(self).header_stream(),
            final(self).uses_separate_header_stream() == old(self).uses_separate_header_stream(),
            forall|y: u64| #[trigger] final(self).record_pos(y) == old(self).record_pos(y),
    ;

    /// The segment entry governing a byte, discovering headers strictly
    /// left to right until one covers it; nothing when the stream ends
    /// first. The index only ever grows, never changing what it already
    /// held; a byte it already covers is answered from the index alone,
    /// with nothing loaded.
    fn get_entry_for_byte(&mut self, byte: u64) -> (r: Result<Option<SegmentEntry>, MetaFileError>)
        requires
            old(self).inv(),
        ensures
            final(self).inv(),
            final(self).data() == old(self).data(),
            final(self).cursor() == old(self).cursor(),
            final(self).last_run() == old(self).last_run(),
            old(self).entries().is_prefix_of(final(self).entries()),
            r matches Ok(Some(e)) ==> spec_lookup(final(self).entries(), byte as int) matches Some(
                i,
            ) && entry_like(&e, &final(self).entries()[i]),
            r matches Ok(None::<SegmentEntry>) ==> spec_hw(final(self).entries()) <= byte,
            r matches Err(e) ==> e != MetaFileError::SeekOutOfBounds && e != MetaFileError::SeekConstraint,
            spec_lookup(old(self).entries(), byte as int) is Some ==> final(self).entries()
                == old(self).entries() && r matches Ok(Some(e2)),
            r matches Ok(None::<SegmentEntry>) ==> load_outcome_parts(
                final(self).header_stream(),
                final(self).record_pos((spec_hw(final(self).entries()) as u64)),
                final(self).uses_separate_header_stream(),
                spec_hw(final(self).entries()) as u64,
            ) == LoadOutcome::End,
    {
        if let Some(e) = self.storage_find(byte) {
            proof {
                assert(self.entries().is_prefix_of(self.entries())) by {
                    assert(self.entries().subrange(0, self.entries().len() as int) =~= self
                        .entries());
                }
            }
            return Ok(Some(e));
        }
        proof {
            self.inv_facts();
            lemma_lookup(self.entries(), byte as int);
        }
        self.discover_entry_for_byte(byte)
    }

    /// The discovery side of `get_entry_for_byte`: loads headers at the
    /// high-water mark until one covers the byte or the stream ends.
    fn discover_entry_for_byte(&mut self, byte: u64) -> (r: Result<
        Option<SegmentEntry>,
        MetaFileError,
    >)
        requires
            old(self).inv(),
        ensures
            final(self).inv(),
            final(self).data() == old(self).data(),
            final(self).cursor() == old(self).cursor(),
            final(self).last_run() == old(self).last_run(),
            old(self).entries().is_prefix_of(final(self).entries()),
            r matches Ok(Some(e)) ==> spec_lookup(final(self).entries(), byte as int) matches Some(
                i,
            ) && entry_like(&e, &final(self).entries()[i]),
            r matches Ok(None::<SegmentEntry>) ==> spec_hw(final(self).entries()) <= byte,
            r matches Err(e) ==> e != MetaFileError::SeekOutOfBounds && e != MetaFileError::SeekConstraint,
            r matches Ok(None::<SegmentEntry>) ==> load_outcome_parts(
                final(self).header_stream(),
                final(self).record_pos((spec_hw(final(self).entries()) as u64)),
                final(self).uses_separate_header_stream(),
                spec_hw(final(self).entries()) as u64,
            ) == LoadOutcome::End,
    {
        proof {
            self.inv_facts();
            assert(self.entries().is_prefix_of(self.entries())) by {
                assert(self.entries().subrange(0, self.entries().len() as int) =~= self.entries());
            }
        }
        if let Some(e) = self.storage_find(byte) {
            return Ok(Some(e));
        }
        proof {
            lemma_lookup(self.entries(), byte as int);
        }
        loop
            invariant
                self.inv(),
                self.data() == old(self).data(),
                self.cursor() == old(self).cursor(),
                self.last_run() == old(self).last_run(),
                old(self).entries().is_prefix_of(self.entries()),
                spec_hw(self.entries()) <= byte,
                spec_lookup(old(self).entries(), byte as int) is None,
            decreases byte + 1 - spec_hw(self.entries()),
        {
            let first_byte = self.get_first_byte_of_next_header_to_read();
            let ghost pre = self.entries();
            match self.load_next_header(first_byte)? {
                None => {
                    return Ok(None);
                },
                Some(h) => {
                    let end = h.abs_pos + h.bytes;
                    if end <= first_byte {
                        return Err(MetaFileError::NonMonotonicHeader);
                    }
                    let ghost hdr = h;
                    let covers = end > byte;
                    self.record_header(first_byte, h);
                    proof {
                        self.inv_facts();
                        assert(self.entries().drop_last() =~= pre);
                        assert(old(self).entries().is_prefix_of(self.entries())) by {
                            let o = old(self).entries();
                            assert(o.subrange(0, o.len() as int) =~= pre.subrange(
                                0,
                                o.len() as int,
                            ));
                        }
                    }
                    if covers {
                        proof {
                            let es = self.entries();
                            assert(es[es.len() - 1].key == first_byte);
                            lemma_lookup_found(es, es.len() - 1, byte as int);
                        }
                        match self.storage_find(byte) {
                            Some(e) => {
                                return Ok(Some(e));
                            },
                            None => {
                                proof {
                                    assert(false);
                                }
                                return Err(MetaFileError::IoError);
                            },
                        }
                    }
                },
            }
        }
    }

    /// The header governing a byte, discovering headers lazily; nothing
    /// when the byte lies beyond the stream.
    fn get_header_for_byte(&mut self, byte: u64) -> (r: Result<Option<Header>, MetaFileError>)
        requires
            old(self).inv(),
        ensures
            final(self).inv(),
            final(self).data() == old(self).data(),
            final(self).cursor() == old(self).cursor(),
            final(self).last_run() == old(self).last_run(),
            old(self).entries().is_prefix_of(final(self).entries()),
            r matches Ok(Some(h)) ==> spec_lookup(final(self).entries(), byte as int) matches Some(
                i,
            ) && header_like(&h, &final(self).entries()[i].header),
            r matches Ok(None::<Header>) ==> spec_hw(final(self).entries()) <= byte,
            r matches Err(e) ==> e != MetaFileError::SeekOutOfBounds && e != MetaFileError::SeekConstraint,
            spec_lookup(old(self).entries(), byte as int) is Some ==> final(self).entries()
                == old(self).entries() && r matches Ok(Some(h2)),
            r matches Ok(None::<Header>) ==> load_outcome_parts(
                final(self).header_stream(),
                final(self).record_pos((spec_hw(final(self).entries()) as u64)),
                final(self).uses_separate_header_stream(),
                spec_hw(final(self).entries()) as u64,
            ) == LoadOutcome::End,
    {
        match self.get_entry_for_byte(byte)? {
            Some(e) => Ok(Some(e.header)),
            None => Ok(None),
        }
    }
}

/// A seek destination: an absolute sample, a sample relative to the end of
/// the stream, or a sample relative to the current position.
#[derive(Copy, Clone, Debug, PartialEq, Eq, Structural)]
pub enum SeekFrom {
    /// An absolute global sample index.
    Start(u64),
    /// An offset from one past the last sample of the stream.
    End(i64),
    /// An offset from the current sample position.
    Current(i64),
}

/// The index of the entry whose segment holds a global sample, if loaded.
pub open spec fn spec_sample_lookup(s: Seq<SegmentEntry>, g: int) -> Option<int>
    decreases s.len(),
{
    if s.len() == 0 {
        Option::None
    } else {
        let last = s[s.len() - 1];
        if last.first_sample <= g {
            if g < last.first_sample + last.header.spec_ns() {
                Option::Some(s.len() - 1)
            } else {
                Option::None
            }
        } else {
            spec_sample_lookup(s.drop_last(), g)
        }
    }
}

/// What a successful sample lookup means, and that it fails exactly past
/// the total sample count.
pub proof fn lemma_sample_lookup(s: Seq<SegmentEntry>, g: int)
    requires
        entries_wf(s),
    ensures
        spec_sample_lookup(s, g) matches Some(i) ==> 0 <= i < s.len() && s[i].first_sample <= g
            < s[i].first_sample + s[i].header.spec_ns(),
        spec_sample_lookup(s, g) is None <==> !(0 <= g < spec_total_samples(s)),
    decreases s.len(),
{
    if s.len() > 0 {
        assert(forall|j: int| 0 <= j < s.len() - 1 ==> s.drop_last()[j] == s[j]);
        lemma_wf_entry(s, s.len() - 1);
        if s.len() > 1 {
            lemma_wf_entry(s, s.len() - 2);
            lemma_num_samples_le_bytes(&s[s.len() - 2].header);
        }
        lemma_sample_lookup(s.drop_last(), g);
    }
}

/// Global sample counts never decrease along the index.
proof fn lemma_first_samples_increase(s: Seq<SegmentEntry>, i: int, j: int)
    requires
        entries_wf(s),
        0 <= i <= j < s.len(),
    ensures
        s[i].first_sample <= s[j].first_sample,
    decreases j - i,
{
    if i < j {
        lemma_first_samples_increase(s, i, j - 1);
        lemma_wf_entry(s, j);
        lemma_wf_entry(s, j - 1);
        lemma_num_samples_le_bytes(&s[j - 1].header);
    }
}

/// An entry whose segment holds a sample is the one the sample lookup
/// finds.
pub proof fn lemma_sample_lookup_found(s: Seq<SegmentEntry>, i: int, g: int)
    requires
        entries_wf(s),
        0 <= i < s.len(),
        s[i].first_sample <= g < s[i].first_sample + s[i].header.spec_ns(),
    ensures
        spec_sample_lookup(s, g) == Some(i),
    decreases s.len(),
{
    let n = s.len() - 1;
    if i < n {
        lemma_wf_entry(s, i + 1);
        lemma_first_samples_increase(s, i + 1, n);
        assert(g < s[n].first_sample);
        assert(s.drop_last() =~= s.subrange(0, n));
        lemma_entries_wf_prefix(s, n);
        lemma_sample_lookup_found(s.drop_last(), i, g);
    }
}

/// Whether the byte at `p` starts a whole element, inside the data region
/// of a stored segment whose encoding is directly representable as the
/// target format.
pub open spec fn governed_direct(s: Seq<SegmentEntry>, p: int, tfmt: TargetFormat) -> bool {
    match spec_lookup(s, p) {
        Option::Some(i) => {
            let h = s[i].header;
            &&& spec_reads_directly_to(h.dtype, h.cplx, tfmt)
            &&& h.spec_sb() == fmt_width(tfmt)
            &&& h.abs_pos <= p
            &&& p + h.spec_sb() <= h.spec_end()
        },
        Option::None => false,
    }
}

/// Whether two consecutive trace positions respect the run gate: they lie
/// in the same segment, or the later segment is a fully compatible
/// continuation of the earlier one.
pub open spec fn trace_step_ok(s: Seq<SegmentEntry>, p0: int, p1: int) -> bool {
    match (spec_lookup(s, p0), spec_lookup(s, p1)) {
        (Option::Some(a), Option::Some(b)) => a == b || (spec_compatible_h(
            &s[b].header,
            &s[a].header,
            SeekPreserve::All,
        ) && spec_is_continuation_h(&s[b].header, &s[a].header)),
        _ => false,
    }
}

/// A gate between two governed positions, stated over their entries,
/// yields a valid trace step.
proof fn lemma_step_ok(s: Seq<SegmentEntry>, p0: int, p1: int, a: int, b: int)
    requires
        spec_lookup(s, p0) == Some(a),
        spec_lookup(s, p1) == Some(b),
        a == b || (spec_compatible_h(&s[b].header, &s[a].header, SeekPreserve::All)
            && spec_is_continuation_h(&s[b].header, &s[a].header)),
    ensures
        trace_step_ok(s, p0, p1),
{
}

/// The compatibility and continuity relations depend only on the fields
/// the header likeness preserves.
proof fn lemma_compat_like(x1: &Header, x2: &Header, y1: &Header, y2: &Header, p: SeekPreserve)
    requires
        header_like(x1, y1),
        header_like(x2, y2),
    ensures
        spec_compatible_h(x1, x2, p) == spec_compatible_h(y1, y2, p),
        spec_is_continuation_h(x1, x2) == spec_is_continuation_h(y1, y2),
{
}

/// Whether the run record points at the segment governing a position.
pub open spec fn run_links_trace(s: Seq<SegmentEntry>, lr: Option<LastRun>, p_last: int) -> bool {
    match lr {
        Option::Some(l) => l.seg_index < s.len() && spec_lookup(s, p_last) == Some(
            l.seg_index as int,
        ),
        Option::None => false,
    }
}

/// Whether the cursor rests on a whole, directly readable sample of an
/// indexed segment, so that a fresh read needs no discovery to begin.
pub open spec fn read_ready(s: Seq<SegmentEntry>, cursor: int, tfmt: TargetFormat) -> bool {
    match spec_lookup(s, cursor) {
        Option::Some(i) => {
            let h = s[i].header;
            &&& h.abs_pos <= cursor
            &&& cursor + h.spec_sb() <= h.spec_end()
            &&& spec_reads_directly_to(h.dtype, h.cplx, tfmt)
            &&& h.spec_sb() == fmt_width(tfmt)
        },
        Option::None => false,
    }
}

/// A valid trace of verbatim sample reads: strictly forward positions from
/// the starting cursor, each a whole element of a directly readable stored
/// segment, each value the exact decode of the bytes there, and each
/// segment boundary crossed satisfying the run gate.
pub open spec fn read_trace_ok<T: Element>(
    s: Seq<SegmentEntry>,
    data: Seq<u8>,
    start_cursor: int,
    ps: Seq<int>,
    vals: Seq<T>,
) -> bool {
    let w = fmt_width(T::fmt());
    &&& ps.len() == vals.len()
    &&& forall|i: int| 0 <= i < ps.len() ==> start_cursor <= #[trigger] ps[i]
    &&& forall|i: int| 0 < i < ps.len() ==> ps[i - 1] + w <= #[trigger] ps[i]
    &&& forall|i: int| 0 <= i < ps.len() ==> governed_direct(s, #[trigger] ps[i], T::fmt())
    &&& forall|i: int| 0 <= i < ps.len() ==> #[trigger] ps[i] + w <= data.len()
    &&& forall|i: int| 0 < i < ps.len() ==> trace_step_ok(s, ps[i - 1], #[trigger] ps[i])
    &&& forall|i: int|
        0 <= i < vals.len() ==> #[trigger] vals[i] == T::decode_spec(
            data.subrange(ps[i], ps[i] + w),
        )
}

/// Whether some valid trace of verbatim reads yields the values.
pub open spec fn has_read_trace<T: Element>(
    s: Seq<SegmentEntry>,
    data: Seq<u8>,
    start_cursor: int,
    vals: Seq<T>,
) -> bool {
    exists|ps: Seq<int>| read_trace_ok::<T>(s, data, start_cursor, ps, vals)
}

/// Whether the run preserve level holds from the previous run's segment into
/// segment `i`: same segment, or a compatible continuation.
pub open spec fn run_gate(s: Seq<SegmentEntry>, i: int, lr: Option<LastRun>) -> bool {
    match lr {
        Option::None => true,
        Option::Some(l) => {
            ||| l.seg_index >= s.len()
            ||| l.seg_index == i
            ||| (spec_compatible_h(&s[i].header, &s[l.seg_index as int].header, SeekPreserve::All)
                && spec_is_continuation_h(&s[i].header, &s[l.seg_index as int].header))
        },
    }
}

/// Whether the cursor already rests inside the data region of an indexed
/// segment, so that resolving its sample involves no discovery at all.
pub open spec fn advance_ready(s: Seq<SegmentEntry>, cursor: int) -> bool {
    match spec_lookup(s, cursor) {
        Option::Some(i) => s[i].header.abs_pos <= cursor,
        Option::None => false,
    }
}

/// Why a read stopped short: either the cursor lies past everything the
/// stream holds, or it rests on the next unread sample of a segment that
/// fails the type gate or the run gate.
pub open spec fn read_blocked(
    s: Seq<SegmentEntry>,
    cursor: int,
    lr: Option<LastRun>,
    tfmt: TargetFormat,
) -> bool {
    match spec_lookup(s, cursor) {
        Option::None => spec_hw(s) <= cursor,
        Option::Some(i) => {
            let h = s[i].header;
            &&& h.abs_pos <= cursor < h.spec_end()
            &&& (cursor + h.spec_sb() > h.spec_end() || !(spec_reads_directly_to(
                h.dtype,
                h.cplx,
                tfmt,
            ) && h.spec_sb() == fmt_width(tfmt)) || !run_gate(s, i, lr))
        },
    }
}

/// Bytes of one whole sample of an encoding, doubled for a complex
/// target.
pub open spec fn dtype_chunk(dt: DataType, t: TargetFormat) -> int {
    dtype_width(dt) * (if t is Complex {
        2int
    } else {
        1int
    })
}

/// The scalar width of an encoding, as a value.
pub fn dtype_width_val(dt: DataType) -> (r: usize)
    ensures
        r == dtype_width(dt),
{
    match dt {
        DataType::Byte => 1,
        DataType::Short => 2,
        DataType::Int => 4,
        DataType::Float => 4,
        DataType::Double => 8,
    }
}

/// The signed value of an integer-encoded scalar, which every conversion
/// target up the integer lattice preserves exactly.
fn decode_int_scalar(dt: DataType, bytes: &Vec<u8>, start: usize) -> (r: i32)
    requires
        dt == DataType::Byte || dt == DataType::Short || dt == DataType::Int,
        start + dtype_width(dt) <= bytes@.len(),
    ensures
        r == spec_scalar_int(dt, bytes@.subrange(start as int, start + dtype_width(dt))),
        dt == DataType::Byte ==> -128 <= r < 128,
        dt == DataType::Short ==> -0x8000 <= r < 0x8000,
{
    proof {
        assert(bytes@.len() == bytes.len());
    }
    match dt {
        DataType::Byte => {
            proof {
                assert(bytes@.subrange(start as int, start + 1)[0] == bytes@[start as int]);
            }
            let b = bytes[start];
            if b < 128 {
                b as i32
            } else {
                (b as i32) - 256
            }
        },
        DataType::Short => {
            proof {
                assert(bytes@.subrange(start as int, start + 2)[0] == bytes@[start as int]);
                assert(bytes@.subrange(start as int, start + 2)[1] == bytes@[start + 1]);
            }
            let v: u32 = (bytes[start] as u32) + 256 * (bytes[start + 1] as u32);
            if v < 0x8000 {
                v as i32
            } else {
                (v as i32) - 0x1_0000
            }
        },
        _ => {
            proof {
                assert(bytes@.subrange(start as int, start + 4)[0] == bytes@[start as int]);
                assert(bytes@.subrange(start as int, start + 4)[1] == bytes@[start + 1]);
                assert(bytes@.subrange(start as int, start + 4)[2] == bytes@[start + 2]);
                assert(bytes@.subrange(start as int, start + 4)[3] == bytes@[start + 3]);
            }
            let v: u32 = (bytes[start] as u32) + 256 * (bytes[start + 1] as u32) + 0x1_0000 * (
            bytes[start + 2] as u32) + 0x100_0000 * (bytes[start + 3] as u32);
            if v < 0x8000_0000 {
                v as i32
            } else {
                ((v as i64) - 0x1_0000_0000i64) as i32
            }
        },
    }
}

/// An element type that converting reads can produce: the integer targets
/// of the lattice, where widening preserves each sample's value exactly.
/// Floating-point targets are outside the verified core, as conversion to
/// them is floating-point arithmetic.
pub trait ConvertElement: Element {
    /// The value of a converted sample chunk.
    spec fn convert_spec(dt: DataType, s: Seq<u8>) -> Self;

    /// Converts the sample chunk at `start`, encoded as `dt`.
    fn convert(dt: DataType, bytes: &Vec<u8>, start: usize) -> (r: Self)
        requires
            spec_converts_to(dt, Self::fmt() is Complex, Self::fmt()),
            start + dtype_chunk(dt, Self::fmt()) <= bytes@.len(),
        ensures
            r == Self::convert_spec(
                dt,
                bytes@.subrange(start as int, start + dtype_chunk(dt, Self::fmt())),
            ),
    ;
}

impl ConvertElement for i8 {
    open spec fn convert_spec(dt: DataType, s: Seq<u8>) -> i8 {
        spec_scalar_int(dt, s) as i8
    }

    fn convert(dt: DataType, bytes: &Vec<u8>, start: usize) -> (r: i8) {
        decode_int_scalar(dt, bytes, start) as i8
    }
}

impl ConvertElement for i16 {
    open spec fn convert_spec(dt: DataType, s: Seq<u8>) -> i16 {
        spec_scalar_int(dt, s) as i16
    }

    fn convert(dt: DataType, bytes: &Vec<u8>, start: usize) -> (r: i16) {
        decode_int_scalar(dt, bytes, start) as i16
    }
}

impl ConvertElement for i32 {
    open spec fn convert_spec(dt: DataType, s: Seq<u8>) -> i32 {
        spec_scalar_int(dt, s) as i32
    }

    fn convert(dt: DataType, bytes: &Vec<u8>, start: usize) -> (r: i32) {
        decode_int_scalar(dt, bytes, start)
    }
}

impl<T: ConvertElement + ScalarElement> ConvertElement for Cpx<T> {
    open spec fn convert_spec(dt: DataType, s: Seq<u8>) -> Cpx<T> {
        let dw = dtype_width(dt);
        Cpx {
            re: T::convert_spec(dt, s.subrange(0, dw)),
            im: T::convert_spec(dt, s.subrange(dw, 2 * dw)),
        }
    }

    fn convert(dt: DataType, bytes: &Vec<u8>, start: usize) -> (r: Cpx<T>) {
        proof {
            T::scalar_fmt();
            assert(bytes@.len() == bytes.len());
        }
        let dw = dtype_width_val(dt);
        let re = T::convert(dt, bytes, start);
        let im = T::convert(dt, bytes, start + dw);
        proof {
            let dwi = dtype_width(dt);
            let whole = bytes@.subrange(start as int, start + 2 * dwi);
            assert(whole.subrange(0, dwi) =~= bytes@.subrange(start as int, start + dwi));
            assert(whole.subrange(dwi, 2 * dwi) =~= bytes@.subrange(start + dwi, start + 2 * dwi));
        }
        Cpx { re, im }
    }
}

/// Whether the value at byte `p` is the exact conversion of the whole
/// element stored there, inside the data region of a stored segment whose
/// encoding converts to the target.
pub open spec fn conv_at<T: ConvertElement>(
    s: Seq<SegmentEntry>,
    data: Seq<u8>,
    p: int,
    v: T,
) -> bool {
    match spec_lookup(s, p) {
        Option::Some(i) => {
            let h = s[i].header;
            &&& spec_converts_to(h.dtype, h.cplx, T::fmt())
            &&& h.spec_sb() == dtype_chunk(h.dtype, T::fmt())
            &&& h.abs_pos <= p
            &&& p + h.spec_sb() <= h.spec_end()
            &&& p + h.spec_sb() <= data.len()
            &&& v == T::convert_spec(h.dtype, data.subrange(p, p + h.spec_sb()))
        },
        Option::None => false,
    }
}

/// A valid trace of converting reads: strictly forward positions from the
/// starting cursor, each value the exact conversion of the element there.
pub open spec fn conv_trace_ok<T: ConvertElement>(
    s: Seq<SegmentEntry>,
    data: Seq<u8>,
    start_cursor: int,
    ps: Seq<int>,
    vals: Seq<T>,
) -> bool {
    &&& ps.len() == vals.len()
    &&& forall|i: int| 0 <= i < ps.len() ==> start_cursor <= #[trigger] ps[i]
    &&& forall|i: int| 0 < i < ps.len() ==> ps[i - 1] < #[trigger] ps[i]
    &&& forall|i: int| 0 < i < ps.len() ==> trace_step_ok(s, ps[i - 1], #[trigger] ps[i])
    &&& forall|i: int| 0 <= i < ps.len() ==> conv_at::<T>(s, data, #[trigger] ps[i], vals[i])
}

/// Whether the cursor rests on a whole, convertible sample of an indexed
/// segment, so that a fresh converting read needs no discovery to begin.
pub open spec fn conv_ready<T: ConvertElement>(s: Seq<SegmentEntry>, cursor: int) -> bool {
    match spec_lookup(s, cursor) {
        Option::Some(i) => {
            let h = s[i].header;
            &&& h.abs_pos <= cursor
            &&& cursor + h.spec_sb() <= h.spec_end()
            &&& spec_converts_to(h.dtype, h.cplx, T::fmt())
            &&& h.spec_sb() == dtype_chunk(h.dtype, T::fmt())
        },
        Option::None => false,
    }
}

/// Whether some valid trace of converting reads yields the values.
pub open spec fn has_conv_trace<T: ConvertElement>(
    s: Seq<SegmentEntry>,
    data: Seq<u8>,
    start_cursor: int,
    vals: Seq<T>,
) -> bool {
    exists|ps: Seq<int>| conv_trace_ok::<T>(s, data, start_cursor, ps, vals)
}

/// A read trace in hand witnesses that one exists.
proof fn lemma_witness_read_trace<T: Element>(
    s: Seq<SegmentEntry>,
    data: Seq<u8>,
    c0: int,
    ps: Seq<int>,
    vals: Seq<T>,
)
    requires
        read_trace_ok::<T>(s, data, c0, ps, vals),
    ensures
        has_read_trace::<T>(s, data, c0, vals),
{
    assert(read_trace_ok::<T>(s, data, c0, ps, vals));
}

/// A converting-read trace in hand witnesses that one exists.
proof fn lemma_witness_conv_trace<T: ConvertElement>(
    s: Seq<SegmentEntry>,
    data: Seq<u8>,
    c0: int,
    ps: Seq<int>,
    vals: Seq<T>,
)
    requires
        conv_trace_ok::<T>(s, data, c0, ps, vals),
    ensures
        has_conv_trace::<T>(s, data, c0, vals),
{
    assert(conv_trace_ok::<T>(s, data, c0, ps, vals));
}

/// Why a converting read stopped short: like a direct read, with the
/// conversion gate in place of the exact-representation gate.
pub open spec fn conv_blocked<T: ConvertElement>(
    s: Seq<SegmentEntry>,
    cursor: int,
    lr: Option<LastRun>,
) -> bool {
    match spec_lookup(s, cursor) {
        Option::None => spec_hw(s) <= cursor,
        Option::Some(i) => {
            let h = s[i].header;
            &&& h.abs_pos <= cursor < h.spec_end()
            &&& (cursor + h.spec_sb() > h.spec_end() || !(spec_converts_to(h.dtype, h.cplx, T::fmt())
                && h.spec_sb() == dtype_chunk(h.dtype, T::fmt())) || !run_gate(s, i, lr))
        },
    }
}

/// A converting-read trace stays valid when the index grows.
proof fn lemma_conv_trace_prefix<T: ConvertElement>(
    s1: Seq<SegmentEntry>,
    s2: Seq<SegmentEntry>,
    data: Seq<u8>,
    c0: int,
    ps: Seq<int>,
    vals: Seq<T>,
)
    requires
        entries_wf(s1),
        entries_wf(s2),
        s1.is_prefix_of(s2),
        conv_trace_ok::<T>(s1, data, c0, ps, vals),
    ensures
        conv_trace_ok::<T>(s2, data, c0, ps, vals),
{
    assert forall|i: int| 0 <= i < ps.len() implies conv_at::<T>(
        s2,
        data,
        #[trigger] ps[i],
        vals[i],
    ) && spec_lookup(s2, ps[i]) == spec_lookup(s1, ps[i]) by {
        let p = ps[i];
        match spec_lookup(s1, p) {
            Option::Some(k) => {
                lemma_lookup(s1, p);
                lemma_end_le_hw(s1, k);
                lemma_lookup_prefix(s1, s2, p);
                assert(s2[k] == s1[k]) by {
                    assert(s1 =~= s2.subrange(0, s1.len() as int));
                }
            },
            Option::None => {},
        }
    }
    assert forall|i: int| 0 < i < ps.len() implies trace_step_ok(
        s2,
        ps[i - 1],
        #[trigger] ps[i],
    ) by {
        lemma_lookup(s1, ps[i - 1]);
        lemma_lookup(s1, ps[i]);
        assert(forall|j: int| 0 <= j < s1.len() ==> s2[j] == #[trigger] s1[j]) by {
            assert(s1 =~= s2.subrange(0, s1.len() as int));
        }
    }
}

/// Extends a converting-read trace by one contiguous run of `t` whole
/// elements converted from one convertible segment.
#[verifier::spinoff_prover]
#[verifier::rlimit(100)]
proof fn lemma_extend_conv_trace<T: ConvertElement>(
    es: Seq<SegmentEntry>,
    data: Seq<u8>,
    c0: int,
    ps: Seq<int>,
    vals: Seq<T>,
    cur: int,
    w: int,
    t: int,
    n: int,
    idx: int,
    pre_buf: Seq<T>,
) -> (newps: Seq<int>)
    requires
        entries_wf(es),
        0 <= idx < es.len(),
        1 <= w,
        es[idx].header.wf(),
        spec_converts_to(es[idx].header.dtype, es[idx].header.cplx, T::fmt()),
        es[idx].header.spec_sb() == w,
        w == dtype_chunk(es[idx].header.dtype, T::fmt()),
        es[idx].header.abs_pos <= cur,
        cur + t * w <= es[idx].header.spec_end(),
        es[idx].key <= cur,
        1 <= t,
        0 <= n,
        n + t <= vals.len(),
        c0 <= cur,
        conv_trace_ok::<T>(es, data, c0, ps, pre_buf.take(n)),
        ps.len() == n,
        n > 0 ==> ps[n - 1] < cur,
        n > 0 ==> trace_step_ok(es, ps[n - 1], cur),
        vals.len() == pre_buf.len(),
        forall|j: int| 0 <= j < n ==> vals[j] == pre_buf[j],
        forall|kk: int|
            0 <= kk < t ==> vals[n + kk] == T::convert_spec(
                es[idx].header.dtype,
                #[trigger] data.subrange(cur + kk * w, cur + (kk + 1) * w),
            ),
        cur + t * w <= data.len(),
    ensures
        conv_trace_ok::<T>(es, data, c0, newps, vals.take(n + t)),
        newps.len() == n + t,
        newps[n + t - 1] < cur + t * w,
        spec_lookup(es, newps[n + t - 1]) == Some(idx),
{
    assert forall|k: int| 0 <= k < t implies conv_at::<T>(
        es,
        data,
        cur + #[trigger] (k * w),
        vals[n + k],
    ) && spec_lookup(es, cur + k * w) == Some(idx) by {
        vstd::arithmetic::mul::lemma_mul_inequality(k + 1, t, w);
        vstd::arithmetic::mul::lemma_mul_is_distributive_add_other_way(w, k, 1);
        vstd::arithmetic::mul::lemma_mul_nonnegative(k, w);
        lemma_lookup_found(es, idx, cur + k * w);
        assert(vals[n + k] == T::convert_spec(
            es[idx].header.dtype,
            data.subrange(cur + k * w, cur + (k + 1) * w),
        ));
    }
    let newps0 = ps + Seq::new(t as nat, |k: int| cur + k * w);
    lemma_chunk_trace_steps(es, idx, cur, w, t, ps, newps0);
    assert forall|i: int| 0 <= i < newps0.len() implies c0 <= #[trigger] newps0[i] by {
        if i >= n {
            vstd::arithmetic::mul::lemma_mul_nonnegative(i - n, w);
        }
    }
    assert forall|i: int| 0 < i < newps0.len() implies newps0[i - 1] < #[trigger] newps0[i] by {
        if i > n {
            vstd::arithmetic::mul::lemma_mul_is_distributive_add_other_way(w, i - n - 1, 1);
        }
    }
    assert forall|i: int|
        0 <= i < vals.take(n + t).len() implies conv_at::<T>(
        es,
        data,
        newps0[i],
        #[trigger] vals.take(n + t)[i],
    ) by {
        if i < n {
            assert(pre_buf.take(n)[i] == pre_buf[i]);
        }
    }
    assert(newps0[n + t - 1] == cur + (t - 1) * w);
    vstd::arithmetic::mul::lemma_mul_is_distributive_sub_other_way(w, t, 1);
    vstd::arithmetic::mul::lemma_mul_nonnegative(t - 1, w);
    newps0
}

/// Metadata applying to every sample of the most recent read: the rate
/// bits and the reception time of the run's first sample.
#[derive(Copy, Clone, Debug, PartialEq, Eq, Structural)]
pub struct SampleMeta {
    /// Sample rate of the run, as the IEEE 754 bits of a double in Hz.
    pub samp_rate: u64,
    /// Reception time of the first sample of the run.
    pub rx_time: RxTime,
}

/// A user-visible annotation derived from a segment's extra dictionary:
/// one entry of that dictionary, placed at the segment's first sample.
#[derive(Debug)]
pub struct StreamTag {
    /// The global sample index the tag applies from.
    pub sample: u64,
    /// The entry's key bytes.
    pub key: Vec<u8>,
    /// The entry's value.
    pub value: Tag,
}

/// What the stream tags of a run must be: when the run's segment is
/// indexed and its extra record is a dictionary, one tag per entry, in
/// order, placed at the segment's first sample.
pub open spec fn tags_match(s: Seq<SegmentEntry>, l: LastRun, r: Seq<StreamTag>) -> bool {
    if l.seg_index >= s.len() {
        true
    } else {
        match s[l.seg_index as int].header.extra_dict@ {
            TagV::Dict(des) => {
                &&& r.len() == des.len()
                &&& forall|k: int|
                    0 <= k < des.len() ==> (#[trigger] r[k]).key@ == des[k].0 && r[k].value@
                        == des[k].1 && r[k].sample == s[l.seg_index as int].first_sample
            },
            _ => true,
        }
    }
}

/// Whether a seek that found segment `i` honors the preserve level against
/// the segment currently governing the cursor (`cur`), if any.
pub open spec fn seek_gate(
    s: Seq<SegmentEntry>,
    i: int,
    cur: Option<int>,
    preserve: SeekPreserve,
) -> bool {
    match cur {
        Option::None => preserve != SeekPreserve::Segment,
        Option::Some(c) => (preserve == SeekPreserve::Segment ==> c == i) && spec_compatible_h(
            &s[i].header,
            &s[c].header,
            preserve,
        ),
    }
}

/// What an absolute sample seek may report: out of bounds only when the
/// sample does not exist, a constraint failure only when it exists but its
/// segment fails the preserve gate.
pub open spec fn seek_start_outcome(
    pos: SeekFrom,
    r: Result<u64, MetaFileError>,
    s: Seq<SegmentEntry>,
    cursor: int,
    preserve: SeekPreserve,
) -> bool {
    match pos {
        SeekFrom::Start(k) => match r {
            Result::Err(e) => {
                &&& (e == MetaFileError::SeekOutOfBounds ==> spec_sample_lookup(s, k as int)
                    is None)
                &&& (e == MetaFileError::SeekConstraint ==> (spec_sample_lookup(s, k as int)
                    matches Option::Some(i) && !seek_gate(s, i, spec_lookup(s, cursor), preserve)))
            },
            Result::Ok(g) => true,
        },
        _ => true,
    }
}

/// What an absolute segment seek may report, and where it lands: the
/// requested ordinal's first sample.
pub open spec fn seek_segment_start_outcome(
    pos: SeekFrom,
    r: Result<u64, MetaFileError>,
    s: Seq<SegmentEntry>,
    cursor_after: int,
) -> bool {
    match pos {
        SeekFrom::Start(k) => match r {
            Result::Ok(g) => {
                &&& k < s.len()
                &&& cursor_after == s[k as int].header.abs_pos
                &&& g == s[k as int].first_sample
            },
            Result::Err(e) => e == MetaFileError::SeekOutOfBounds ==> (s.len() <= k || k
                > usize::MAX),
        },
        _ => true,
    }
}

/// Whether the reception time of the recorded run's first sample is
/// computable within the fixed-point range.
pub open spec fn run_time_computable(s: Seq<SegmentEntry>, lr: Option<LastRun>) -> bool {
    match lr {
        Option::None => false,
        Option::Some(l) => l.seg_index < s.len() && {
            let h = s[l.seg_index as int].header;
            &&& l.start_offset * h.samp_dur.units() <= i128::MAX
            &&& h.rx_time.units() + l.start_offset * h.samp_dur.units() <= i128::MAX
        },
    }
}

/// Whether an absolute sample seek needs nothing beyond the index: the
/// destination sample is indexed and its segment honors the preserve
/// level against the cursor's own.
pub open spec fn seek_start_ready(
    pos: SeekFrom,
    s: Seq<SegmentEntry>,
    cursor: int,
    preserve: SeekPreserve,
) -> bool {
    match pos {
        SeekFrom::Start(k) => match spec_sample_lookup(s, k as int) {
            Option::Some(i) => seek_gate(s, i, spec_lookup(s, cursor), preserve),
            Option::None => false,
        },
        _ => false,
    }
}

/// Whether an absolute segment seek can be answered from the index alone.
pub open spec fn seek_segment_start_ready(
    pos: SeekFrom,
    s: Seq<SegmentEntry>,
    cursor: int,
    preserve: SeekPreserve,
) -> bool {
    match pos {
        SeekFrom::Start(k) => k <= usize::MAX && k < s.len() && seek_gate(
            s,
            k as int,
            spec_lookup(s, cursor),
            preserve,
        ),
        _ => false,
    }
}

/// Whether a convertible segment lies at or after the cursor's own in the
/// index, so that skipping forward needs no discovery.
pub open spec fn valid_seek_ready(
    s: Seq<SegmentEntry>,
    cursor: int,
    target: TargetFormat,
) -> bool {
    s.len() <= usize::MAX && match spec_lookup(s, cursor) {
        Option::Some(c) => exists|j: int|
            c <= j < s.len() && spec_converts_to(
                (#[trigger] s[j]).header.dtype,
                s[j].header.cplx,
                target,
            ),
        Option::None => false,
    }
}

/// The byte of global sample `g` within the segment of entry `i`.
pub open spec fn spec_sample_byte(s: Seq<SegmentEntry>, i: int, g: int) -> int {
    s[i].header.abs_pos + (g - s[i].first_sample) * s[i].header.spec_sb()
}

/// Whether the cursor rests on the first sample of segment `c + sk`, all
/// segments from `c` up to it failing conversion to the target and that
/// one allowing it.
pub open spec fn valid_seek_ok(
    s: Seq<SegmentEntry>,
    c: int,
    sk: int,
    cursor: int,
    target: TargetFormat,
) -> bool {
    &&& 0 <= c
    &&& 0 <= sk
    &&& c + sk < s.len()
    &&& cursor == s[c + sk].header.abs_pos
    &&& spec_converts_to(s[c + sk].header.dtype, s[c + sk].header.cplx, target)
    &&& forall|j: int|
        c <= j < c + sk ==> !spec_converts_to(
            (#[trigger] s[j]).header.dtype,
            s[j].header.cplx,
            target,
        )
}

/// A trace extended by one in-segment run keeps every boundary gate: the
/// new pairs lie in one segment, and the seam to the old trace is given.
proof fn lemma_chunk_trace_steps(
    es: Seq<SegmentEntry>,
    idx: int,
    cur: int,
    w: int,
    t: int,
    ps: Seq<int>,
    newps: Seq<int>,
)
    requires
        newps == ps + Seq::new(t as nat, |k: int| cur + k * w),
        forall|k: int| 0 <= k < t ==> spec_lookup(es, cur + #[trigger] (k * w)) == Some(idx),
        forall|i: int| 0 < i < ps.len() ==> trace_step_ok(es, ps[i - 1], #[trigger] ps[i]),
        ps.len() > 0 ==> trace_step_ok(es, ps[ps.len() - 1], cur),
        1 <= w,
        1 <= t,
    ensures
        forall|i: int| 0 < i < newps.len() ==> trace_step_ok(es, newps[i - 1], #[trigger] newps[i]),
{
    let n = ps.len() as int;
    assert forall|i: int| 0 < i < newps.len() implies trace_step_ok(
        es,
        newps[i - 1],
        #[trigger] newps[i],
    ) by {
        if i > n {
            assert(spec_lookup(es, cur + (i - n - 1) * w) == Some(idx));
            assert(spec_lookup(es, cur + (i - n) * w) == Some(idx));
        } else if i == n {
            vstd::arithmetic::mul::lemma_mul_basics(w);
            assert(newps[i] == cur + 0 * w);
        }
    }
}

/// Extends a read trace by one contiguous run of `t` whole elements read
/// verbatim from one directly readable segment.
#[verifier::spinoff_prover]
#[verifier::rlimit(100)]
proof fn lemma_extend_trace<T: Element>(
    es: Seq<SegmentEntry>,
    data: Seq<u8>,
    c0: int,
    ps: Seq<int>,
    vals: Seq<T>,
    cur: int,
    w: int,
    t: int,
    n: int,
    idx: int,
    pre_buf: Seq<T>,
) -> (newps: Seq<int>)
    requires
        entries_wf(es),
        0 <= idx < es.len(),
        w == fmt_width(T::fmt()),
        1 <= w,
        es[idx].header.wf(),
        spec_reads_directly_to(es[idx].header.dtype, es[idx].header.cplx, T::fmt()),
        es[idx].header.spec_sb() == w,
        es[idx].header.abs_pos <= cur,
        cur + t * w <= es[idx].header.spec_end(),
        es[idx].key <= cur,
        1 <= t,
        0 <= n,
        n + t <= vals.len(),
        c0 <= cur,
        read_trace_ok::<T>(es, data, c0, ps, pre_buf.take(n)),
        ps.len() == n,
        n > 0 ==> ps[n - 1] + w <= cur,
        n > 0 ==> trace_step_ok(es, ps[n - 1], cur),
        vals.len() == pre_buf.len(),
        forall|j: int| 0 <= j < n ==> vals[j] == pre_buf[j],
        forall|kk: int|
            0 <= kk < t ==> vals[n + kk] == T::decode_spec(
                #[trigger] data.subrange(cur + kk * w, cur + (kk + 1) * w),
            ),
        cur + t * w <= data.len(),
    ensures
        read_trace_ok::<T>(es, data, c0, newps, vals.take(n + t)),
        newps.len() == n + t,
        newps[n + t - 1] + w <= cur + t * w,
        spec_lookup(es, newps[n + t - 1]) == Some(idx),
{
    let h = es[idx].header;
    assert forall|k: int| 0 <= k < t implies governed_direct(
        es,
        cur + #[trigger] (k * w),
        T::fmt(),
    ) && cur + k * w + w <= data.len() && spec_lookup(es, cur + k * w) == Some(idx) by {
        vstd::arithmetic::mul::lemma_mul_inequality(k + 1, t, w);
        vstd::arithmetic::mul::lemma_mul_is_distributive_add_other_way(w, k, 1);
        vstd::arithmetic::mul::lemma_mul_nonnegative(k, w);
        lemma_lookup_found(es, idx, cur + k * w);
    }
    let newps0 = ps + Seq::new(t as nat, |k: int| cur + k * w);
    assert forall|i: int| 0 <= i < newps0.len() implies c0 <= #[trigger] newps0[i] by {
        if i >= n {
            vstd::arithmetic::mul::lemma_mul_nonnegative(i - n, w);
        }
    }
    assert forall|i: int| 0 < i < newps0.len() implies newps0[i - 1] + w <= #[trigger] newps0[i] by {
        if i > n {
            vstd::arithmetic::mul::lemma_mul_is_distributive_add_other_way(w, i - n - 1, 1);
        }
    }
    assert forall|i: int| 0 <= i < newps0.len() implies governed_direct(
        es,
        #[trigger] newps0[i],
        T::fmt(),
    ) && newps0[i] + w <= data.len() by {}
    lemma_chunk_trace_steps(es, idx, cur, w, t, ps, newps0);
    assert forall|i: int|
        0 <= i < vals.take(n + t).len() implies #[trigger] vals.take(n + t)[i] == T::decode_spec(
        data.subrange(newps0[i], newps0[i] + w),
    ) by {
        if i < n {
            assert(pre_buf.take(n)[i] == pre_buf[i]);
        } else {
            vstd::arithmetic::mul::lemma_mul_is_distributive_add_other_way(w, i - n, 1);
        }
    }
    assert(newps0[n + t - 1] == cur + (t - 1) * w);
    vstd::arithmetic::mul::lemma_mul_is_distributive_sub_other_way(w, t, 1);
    newps0
}

/// Sample-granular reading and seeking over a byte stream governed by
/// headers: like byte-level read and seek, but counted in samples, with
/// the guarantee that one read never silently crosses a format change,
/// rate change or time discontinuity.
///
/// For maximum throughput read strictly forward, so that the underlying
/// access stays sequential.
pub trait SampleReadSeek: HeaderReader {
    /// Reads `n` bytes of sample data starting at absolute byte `pos`.
    fn read_data_at(&mut self, pos: u64, n: usize) -> (r: Result<Vec<u8>, MetaFileError>)
        requires
            old(self).inv(),
        ensures
            final(self).inv(),
            final(self).entries() == old(self).entries(),
            final(self).data() == old(self).data(),
            final(self).cursor() == old(self).cursor(),
            final(self).last_run() == old(self).last_run(),
            r matches Ok(v) ==> pos + n <= old(self).data().len() && v@ == old(
                self,
            ).data().subrange(pos as int, pos + n),
            r matches Err(e) ==> e == MetaFileError::IoError,
            final(self).header_stream() == old(self).header_stream(),
            final(self).uses_separate_header_stream() == old(self).uses_separate_header_stream(),
            forall|y: u64| #[trigger] final(self).record_pos(y) == old(self).record_pos(y),
    ;

    /// The read cursor, an absolute byte position in the binary stream.
    fn cursor_pos(&self) -> (r: u64)
        requires
            self.inv(),
        ensures
            r == self.cursor(),
    ;

    /// Moves the read cursor.
    fn set_cursor_pos(&mut self, c: u64)
        requires
            old(self).inv(),
        ensures
            final(self).inv(),
            final(self).entries() == old(self).entries(),
            final(self).data() == old(self).data(),
            final(self).cursor() == c,
            final(self).last_run() == old(self).last_run(),
            final(self).header_stream() == old(self).header_stream(),
            final(self).uses_separate_header_stream() == old(self).uses_separate_header_stream(),
            forall|y: u64| #[trigger] final(self).record_pos(y) == old(self).record_pos(y),
    ;

    /// The record of the most recent read.
    fn last_run_get(&self) -> (r: Option<LastRun>)
        requires
            self.inv(),
        ensures
            r == self.last_run(),
    ;

    /// Replaces the record of the most recent read.
    fn set_last_run_info(&mut self, lr: Option<LastRun>)
        requires
            old(self).inv(),
        ensures
            final(self).inv(),
            final(self).entries() == old(self).entries(),
            final(self).data() == old(self).data(),
            final(self).cursor() == old(self).cursor(),
            final(self).last_run() == lr,
            final(self).header_stream() == old(self).header_stream(),
            final(self).uses_separate_header_stream() == old(self).uses_separate_header_stream(),
            forall|y: u64| #[trigger] final(self).record_pos(y) == old(self).record_pos(y),
    ;

    /// The ordinal of the already indexed segment governing a byte.
    fn find_index(&self, byte: u64) -> (r: Option<usize>)
        requires
            self.inv(),
        ensures
            r matches Some(i) ==> spec_lookup(self.entries(), byte as int) == Some(i as int),
            r is None ==> spec_lookup(self.entries(), byte as int) is None,
    ;

    /// The ordinal of the already indexed segment holding a global sample.
    fn find_sample_index(&self, g: u64) -> (r: Option<usize>)
        requires
            self.inv(),
        ensures
            r matches Some(i) ==> spec_sample_lookup(self.entries(), g as int) == Some(i as int),
            r is None ==> spec_sample_lookup(self.entries(), g as int) is None,
    ;

    /// Moves the cursor forward to the next whole sample: into the data
    /// region of its segment, across header bytes and empty segments,
    /// discovering headers as needed. Yields the governing segment's
    /// ordinal and entry, or nothing at the end of the stream.
    /// Moves the cursor forward to the next whole sample: into the data
    /// region of its segment, across header bytes and empty segments,
    /// discovering headers as needed. Yields the governing segment's
    /// ordinal and entry, or nothing at the end of the stream. A cursor
    /// already resting in an indexed data region is answered from the
    /// index alone, with nothing loaded and nothing moved.
    fn advance_to_sample(&mut self) -> (r: Result<Option<(usize, SegmentEntry)>, MetaFileError>)
        requires
            old(self).inv(),
        ensures
            final(self).inv(),
            final(self).data() == old(self).data(),
            final(self).last_run() == old(self).last_run(),
            old(self).entries().is_prefix_of(final(self).entries()),
            old(self).cursor() <= final(self).cursor(),
            r matches Ok(Some(p)) ==> {
                &&& spec_lookup(final(self).entries(), final(self).cursor() as int) == Some(
                    p.0 as int,
                )
                &&& p.0 < final(self).entries().len()
                &&& entry_like(&p.1, &final(self).entries()[p.0 as int])
                &&& final(self).entries()[p.0 as int].header.abs_pos <= final(self).cursor()
                &&& final(self).cursor() < final(self).entries()[p.0 as int].header.spec_end()
            },
            r matches Ok(None::<(usize, SegmentEntry)>) ==> spec_hw(final(self).entries())
                <= final(self).cursor(),
            r matches Err(e) ==> e != MetaFileError::SeekOutOfBounds && e != MetaFileError::SeekConstraint,
            advance_ready(old(self).entries(), old(self).cursor() as int) ==> final(self).entries()
                == old(self).entries() && final(self).cursor() == old(self).cursor() && r matches
                Ok(Some(p3)),
            r matches Ok(None::<(usize, SegmentEntry)>) ==> load_outcome_parts(
                final(self).header_stream(),
                final(self).record_pos((spec_hw(final(self).entries()) as u64)),
                final(self).uses_separate_header_stream(),
                spec_hw(final(self).entries()) as u64,
            ) == LoadOutcome::End,
    {
        proof {
            self.inv_facts();
            assert(self.entries().is_prefix_of(self.entries())) by {
                assert(self.entries() =~= self.entries().subrange(0, self.entries().len() as int));
            }
        }
        let cur = self.cursor_pos();
        // When the cursor already rests in an indexed data region, answer
        // from the index alone.
        if let Some(i) = self.find_index(cur) {
            proof {
                lemma_lookup(self.entries(), cur as int);
            }
            let e = self.segment_at_ord(i);
            if e.header.abs_pos <= cur {
                return Ok(Some((i, e)));
            }
        }
        self.advance_discovering()
    }

    /// The discovery side of `advance_to_sample`: walks forward from the
    /// cursor, loading headers as needed.
    fn advance_discovering(&mut self) -> (r: Result<Option<(usize, SegmentEntry)>, MetaFileError>)
        requires
            old(self).inv(),
        ensures
            final(self).inv(),
            final(self).data() == old(self).data(),
            final(self).last_run() == old(self).last_run(),
            old(self).entries().is_prefix_of(final(self).entries()),
            old(self).cursor() <= final(self).cursor(),
            r matches Ok(Some(p)) ==> {
                &&& spec_lookup(final(self).entries(), final(self).cursor() as int) == Some(
                    p.0 as int,
                )
                &&& p.0 < final(self).entries().len()
                &&& entry_like(&p.1, &final(self).entries()[p.0 as int])
                &&& final(self).entries()[p.0 as int].header.abs_pos <= final(self).cursor()
                &&& final(self).cursor() < final(self).entries()[p.0 as int].header.spec_end()
            },
            r matches Ok(None::<(usize, SegmentEntry)>) ==> spec_hw(final(self).entries())
                <= final(self).cursor(),
            r matches Err(e) ==> e != MetaFileError::SeekOutOfBounds && e != MetaFileError::SeekConstraint,
            r matches Ok(None::<(usize, SegmentEntry)>) ==> load_outcome_parts(
                final(self).header_stream(),
                final(self).record_pos((spec_hw(final(self).entries()) as u64)),
                final(self).uses_separate_header_stream(),
                spec_hw(final(self).entries()) as u64,
            ) == LoadOutcome::End,
    {
        let mut cur = self.cursor_pos();
        #[verifier::rlimit(100)]
        #[verifier::spinoff_prover]
        loop
            invariant
                self.inv(),
                self.data() == old(self).data(),
                self.last_run() == old(self).last_run(),
                old(self).entries().is_prefix_of(self.entries()),
                self.cursor() == old(self).cursor(),
                old(self).cursor() <= cur,
            decreases u64::MAX - cur,

        {
            let ghost pre_entries = self.entries();
            match self.get_entry_for_byte(cur)? {
                None => {
                    self.set_cursor_pos(cur);
                    proof {
                        lemma_prefix_trans(old(self).entries(), pre_entries, self.entries());
                    }
                    return Ok(None);
                },
                Some(e) => {
                    proof {
                        self.inv_facts();
                        lemma_prefix_trans(old(self).entries(), pre_entries, self.entries());
                        lemma_lookup(self.entries(), cur as int);
                        let i = spec_lookup(self.entries(), cur as int)->0;
                        lemma_wf_entry(self.entries(), i);
                    }
                    let abs = e.header.abs_pos;
                    let end = abs + e.header.bytes;
                    let c2 = if cur < abs {
                        abs
                    } else {
                        cur
                    };
                    if c2 < end {
                        self.set_cursor_pos(c2);
                        proof {
                            let i = spec_lookup(self.entries(), cur as int)->0;
                            lemma_lookup_found(self.entries(), i, c2 as int);
                        }
                        match self.find_index(c2) {
                            Some(idx) => {
                                return Ok(Some((idx, e)));
                            },
                            None => {
                                proof {
                                    assert(false);
                                }
                                return Err(MetaFileError::IoError);
                            },
                        }
                    }
                    cur = end;
                },
            }
        }
    }

    /// Fills `buf` from the front, at most completely, with verbatim
    /// copies of consecutive samples starting at the cursor. Reading stops
    /// short of a full buffer only at the end of the stream, at a segment
    /// whose element type the buffer does not represent exactly, at a
    /// segment that is no compatible continuation of the previous run, or
    /// at a cursor resting mid-element; the cursor then rests at the first
    /// unread sample. Returns the number of samples read; zero is not an
    /// error. After an error the buffer may hold a partial prefix.
    #[verifier::spinoff_prover]
    #[verifier::rlimit(100)]
    fn read_samples<T: Element>(&mut self, buf: &mut Vec<T>) -> (r: Result<u64, MetaFileError>)
        requires
            old(self).inv(),
        ensures
            final(self).inv(),
            final(self).data() == old(self).data(),
            old(self).entries().is_prefix_of(final(self).entries()),
            old(self).cursor() <= final(self).cursor(),
            final(buf).len() == old(buf).len(),
            r matches Ok(n) ==> n <= old(buf).len(),
            r matches Ok(n) ==> forall|j: int|
                n <= j < old(buf)@.len() ==> final(buf)@[j] == old(buf)@[j],
            r matches Ok(n) ==> has_read_trace::<T>(
                final(self).entries(),
                final(self).data(),
                old(self).cursor() as int,
                final(buf)@.take(n as int),
            ),
            r matches Ok(n) ==> n < old(buf).len() ==> read_blocked(
                final(self).entries(),
                final(self).cursor() as int,
                final(self).last_run(),
                T::fmt(),
            ),
            old(buf).len() == 0 ==> r == Ok::<u64, MetaFileError>(0),
            r matches Err(e) ==> e != MetaFileError::SeekOutOfBounds && e
                != MetaFileError::SeekConstraint,
            read_ready(old(self).entries(), old(self).cursor() as int, T::fmt()) && old(buf).len()
                > 0 ==> (r matches Ok(n3) ==> n3 >= 1),
    {
        let w = T::width();
        let f = T::fmt_val();
        self.set_last_run_info(None);
        let mut n: usize = 0;
        let ghost mut ps: Seq<int> = Seq::empty();
        let ghost c0 = old(self).cursor() as int;
        proof {
            self.inv_facts();
            assert(self.entries().is_prefix_of(self.entries())) by {
                assert(self.entries() =~= self.entries().subrange(0, self.entries().len() as int));
            }
        }
        loop
            invariant
                self.inv(),
                self.data() == old(self).data(),
                old(self).entries().is_prefix_of(self.entries()),
                c0 == old(self).cursor() as int,
                old(self).cursor() <= self.cursor(),
                buf@.len() == old(buf)@.len(),
                n <= buf@.len(),
                w == fmt_width(T::fmt()),
                f == T::fmt(),
                ps.len() == n,
                forall|j: int| n <= j < old(buf)@.len() ==> buf@[j] == old(buf)@[j],
                read_trace_ok::<T>(self.entries(), self.data(), c0, ps, buf@.take(n as int)),
                n > 0 ==> ps[n - 1] + w <= self.cursor(),
                n == 0 ==> self.last_run() is None,
                n > 0 ==> run_links_trace(self.entries(), self.last_run(), ps[n - 1]),
                read_ready(old(self).entries(), c0, T::fmt()) && n == 0 ==> self.entries() == old(
                    self,
                ).entries() && self.cursor() == old(self).cursor(),
            decreases buf@.len() - n,
        {
            if n == buf.len() {
                proof {
                    lemma_witness_read_trace::<T>(self.entries(), self.data(), old(self).cursor() as int, ps, buf@.take((n as u64) as int));
                }
                return Ok(n as u64);
            }
            let ghost pre_entries = self.entries();
            proof {
                self.inv_facts();
            }
            let step = self.advance_to_sample()?;
            proof {
                self.inv_facts();
                lemma_prefix_trans(old(self).entries(), pre_entries, self.entries());
                lemma_trace_prefix::<T>(
                    pre_entries,
                    self.entries(),
                    self.data(),
                    c0,
                    ps,
                    buf@.take(n as int),
                );
                if n > 0 {
                    lemma_lookup(pre_entries, ps[n - 1]);
                    lemma_lookup_prefix(pre_entries, self.entries(), ps[n - 1]);
                }
            }
            match step {
                None => {
                    proof {
                        lemma_lookup(self.entries(), self.cursor() as int);
                        lemma_witness_read_trace::<T>(self.entries(), self.data(), old(self).cursor() as int, ps, buf@.take((n as u64) as int));
                        if read_ready(old(self).entries(), c0, T::fmt()) && n == 0 {
                            assert(false);
                        }
                    }
                    return Ok(n as u64);
                },
                Some((idx, e)) => {
                    proof {
                        lemma_wf_entry(self.entries(), idx as int);
                    }
                    let cur = self.cursor_pos();
                    let sb = e.header.sample_bytes();
                    let end = e.header.abs_pos + e.header.bytes;
                    if !(e.header.dtype.reads_directly_to(e.header.cplx, f) && sb == (w as u64)) {
                        proof {
                            lemma_witness_read_trace::<T>(self.entries(), self.data(), old(self).cursor() as int, ps, buf@.take((n as u64) as int));
                            if read_ready(old(self).entries(), c0, T::fmt()) && n == 0 {
                                assert(false);
                            }
                        }
                        return Ok(n as u64);
                    }
                    if end - cur < sb {
                        proof {
                            lemma_witness_read_trace::<T>(self.entries(), self.data(), old(self).cursor() as int, ps, buf@.take((n as u64) as int));
                            if read_ready(old(self).entries(), c0, T::fmt()) && n == 0 {
                                assert(false);
                            }
                        }
                        return Ok(n as u64);
                    }
                    let lr = self.last_run_get();
                    match lr {
                        None => {},
                        Some(l) => {
                            if l.seg_index == idx {
                                proof {
                                    if n > 0 {
                                        lemma_step_ok(
                                            self.entries(),
                                            ps[n - 1],
                                            cur as int,
                                            l.seg_index as int,
                                            idx as int,
                                        );
                                    }
                                }
                            } else if l.seg_index >= self.segment_count() {
                                proof {
                                    assert(false);
                                }
                            } else {
                                proof {
                                    lemma_wf_entry(self.entries(), l.seg_index as int);
                                }
                                let le = self.segment_at_ord(l.seg_index);
                                if !(e.header.is_compatible_with(&le.header, SeekPreserve::All)
                                    && e.header.is_continuation_of(&le.header)) {
                                    proof {
                                        lemma_witness_read_trace::<T>(self.entries(), self.data(), old(self).cursor() as int, ps, buf@.take((n as u64) as int));
                                    }
                                    return Ok(n as u64);
                                }
                                proof {
                                    if n > 0 {
                                        lemma_compat_like(
                                            &e.header,
                                            &le.header,
                                            &self.entries()[idx as int].header,
                                            &self.entries()[l.seg_index as int].header,
                                            SeekPreserve::All,
                                        );
                                        lemma_step_ok(
                                            self.entries(),
                                            ps[n - 1],
                                            cur as int,
                                            l.seg_index as int,
                                            idx as int,
                                        );
                                    }
                                }
                            }
                        },
                    }
                    let remaining: u64 = (end - cur) / sb;
                    proof {
                        lemma_offset_in_segment(&self.entries()[idx as int].header, cur as int);
                    }
                    let avail: usize = buf.len() - n;
                    let t: usize = if (avail as u64) <= remaining {
                        avail
                    } else {
                        remaining as usize
                    };
                    proof {
                        lemma_take_fits(end - cur, sb as int, t as int);
                    }
                    let ghost pre_buf = buf@;
                    let ghost es_snap = self.entries();
                    let ghost lr_snap = self.last_run();
                    let mut k: usize = 0;
                    let mut rpos: u64 = cur;
                    proof {
                        vstd::arithmetic::mul::lemma_mul_nonnegative(t as int, w as int);
                    }
                    while k < t
                        invariant
                            self.inv(),
                            self.entries() == es_snap,
                            self.data() == old(self).data(),
                            self.cursor() == cur,
                            self.last_run() == lr_snap,
                            old(self).entries().is_prefix_of(self.entries()),
                            old(self).cursor() <= cur,
                            buf@.len() == pre_buf.len(),
                            pre_buf.len() == old(buf)@.len(),
                            n + t <= buf@.len(),
                            n + t <= buf.len(),
                            k <= t,
                            w == fmt_width(T::fmt()),
                            1 <= w,
                            rpos == cur + k * w,
                            k > 0 ==> cur + k * w <= self.data().len(),
                            self.data().len() <= u64::MAX,
                            forall|j: int|
                                (0 <= j < n || n + k <= j < pre_buf.len()) ==> buf@[j]
                                    == pre_buf[j],
                            forall|kk: int|
                                0 <= kk < k ==> buf@[n + kk] == T::decode_spec(
                                    #[trigger] self.data().subrange(
                                        cur + kk * w,
                                        cur + (kk + 1) * w,
                                    ),
                                ),
                        decreases t - k,
                    {
                        let chunk = match self.read_data_at(rpos, w) {
                            Ok(v) => v,
                            Err(e2) => {
                                return Err(e2);
                            },
                        };
                        let val = T::decode(&chunk, 0);
                        proof {
                            assert(chunk@.subrange(0, w as int) =~= chunk@);
                        }
                        buf.set(n + k, val);
                        proof {
                            assert((k + 1) * (w as int) == k * (w as int) + w) by {
                                vstd::arithmetic::mul::lemma_mul_is_distributive_add_other_way(
                                    w as int,
                                    k as int,
                                    1,
                                );
                            }
                        }
                        rpos = rpos + (w as u64);
                        k = k + 1;
                    }
                    proof {
                        ps = lemma_extend_trace::<T>(
                            self.entries(),
                            self.data(),
                            c0,
                            ps,
                            buf@,
                            cur as int,
                            w as int,
                            t as int,
                            n as int,
                            idx as int,
                            pre_buf,
                        );
                    }
                    let off = e.header.get_sample_pos_of_byte(cur);
                    self.set_last_run_info(
                        Some(LastRun { seg_index: idx, start_offset: off, count: t as u64 }),
                    );
                    self.set_cursor_pos(cur + (t as u64) * (w as u64));
                    proof {
                        vstd::arithmetic::mul::lemma_mul_is_distributive_sub_other_way(
                            w as int,
                            t as int,
                            1,
                        );
                        vstd::arithmetic::mul::lemma_mul_nonnegative(t - 1, w as int);
                    }
                    n = n + t;
                },
            }
        }
    }

    /// Total samples across all segments indexed so far.
    fn total_loaded_samples(&self) -> (r: u64)
        requires
            self.inv(),
        ensures
            r == spec_total_samples(self.entries()),
    ;

    /// The header governing the read cursor, or nothing when the cursor
    /// lies beyond the stream.
    fn get_last_read_header(&mut self) -> (r: Result<Option<Header>, MetaFileError>)
        requires
            old(self).inv(),
        ensures
            final(self).inv(),
            final(self).data() == old(self).data(),
            final(self).cursor() == old(self).cursor(),
            final(self).last_run() == old(self).last_run(),
            old(self).entries().is_prefix_of(final(self).entries()),
            r matches Ok(Some(h)) ==> spec_lookup(
                final(self).entries(),
                old(self).cursor() as int,
            ) matches Some(i) && header_like(&h, &final(self).entries()[i].header),
            r matches Ok(None::<Header>) ==> spec_hw(final(self).entries()) <= old(self).cursor(),
    {
        let c = self.cursor_pos();
        self.get_header_for_byte(c)
    }

    /// The header the most recent run drew from and the header governing
    /// the next sample, advancing the cursor onto that sample; the two
    /// coincide when no run has been recorded.
    fn get_last_and_applicable_header(&mut self) -> (r: Result<
        Option<(Header, Header)>,
        MetaFileError,
    >)
        requires
            old(self).inv(),
        ensures
            final(self).inv(),
            final(self).data() == old(self).data(),
            final(self).last_run() == old(self).last_run(),
            old(self).entries().is_prefix_of(final(self).entries()),
            old(self).cursor() <= final(self).cursor(),
            r matches Ok(Some(p)) ==> spec_lookup(
                final(self).entries(),
                final(self).cursor() as int,
            ) matches Some(i) && header_like(&p.1, &final(self).entries()[i].header),
            r matches Ok(Some(p)) ==> (final(self).last_run() matches Some(l) && l.seg_index
                < final(self).entries().len()) ==> header_like(
                &p.0,
                &final(self).entries()[final(self).last_run()->Some_0.seg_index as int].header,
            ),
            r matches Ok(None::<(Header, Header)>) ==> spec_hw(final(self).entries())
                <= final(self).cursor() && load_outcome_parts(
                final(self).header_stream(),
                final(self).record_pos((spec_hw(final(self).entries()) as u64)),
                final(self).uses_separate_header_stream(),
                spec_hw(final(self).entries()) as u64,
            ) == LoadOutcome::End,
    {
        match self.advance_to_sample()? {
            None => Ok(None),
            Some((idx, e)) => {
                let lr = self.last_run_get();
                let last = match lr {
                    Some(l) => {
                        if l.seg_index < self.segment_count() {
                            self.segment_at_ord(l.seg_index).header
                        } else {
                            e.header.clone()
                        }
                    },
                    None => e.header.clone(),
                };
                Ok(Some((last, e.header)))
            },
        }
    }

    /// The reception time of the first sample of the most recent run, or
    /// nothing when no run is recorded or the time overflows the
    /// fixed-point range.
    fn get_last_read_rx_time(&self) -> (r: Option<RxTime>)
        requires
            self.inv(),
        ensures
            self.last_run() is None ==> r is None,
            r matches Some(ts) ==> self.last_run() matches Some(l) && l.seg_index
                < self.entries().len() && ts.units() == self.entries()[l.seg_index as int].header
                .rx_time.units() + l.start_offset * self.entries()[l.seg_index as int].header
                .samp_dur.units(),
            run_time_computable(self.entries(), self.last_run()) ==> r is Some,
    {
        let l = match self.last_run_get() {
            None => {
                return None;
            },
            Some(l) => l,
        };
        if l.seg_index >= self.segment_count() {
            return None;
        }
        proof {
            self.inv_facts();
            lemma_wf_entry(self.entries(), l.seg_index as int);
            vstd::arithmetic::mul::lemma_mul_nonnegative(
                l.start_offset as int,
                self.entries()[l.seg_index as int].header.samp_dur.units(),
            );
        }
        let e = self.segment_at_ord(l.seg_index);
        let prod = match (l.start_offset as i128).checked_mul(e.header.samp_dur.to_units()) {
            None => {
                return None;
            },
            Some(p) => p,
        };
        match e.header.rx_time.to_units().checked_add(prod) {
            None => None,
            Some(u) => Some(RxTime::from_units(u)),
        }
    }

    /// Metadata applying to every sample of the most recent run, or
    /// nothing when no run is recorded.
    fn get_last_read_meta(&self) -> (r: Option<SampleMeta>)
        requires
            self.inv(),
        ensures
            self.last_run() is None ==> r is None,
            r matches Some(m) ==> self.last_run() matches Some(l) && l.seg_index
                < self.entries().len() && m.samp_rate == self.entries()[l.seg_index as int].header
                .samp_rate_bits && m.rx_time.units() == self.entries()[l.seg_index as int].header
                .rx_time.units() + l.start_offset * self.entries()[l.seg_index as int].header
                .samp_dur.units(),
            run_time_computable(self.entries(), self.last_run()) ==> r is Some,
    {
        let ts = match self.get_last_read_rx_time() {
            None => {
                return None;
            },
            Some(t) => t,
        };
        let l = match self.last_run_get() {
            None => {
                return None;
            },
            Some(l) => l,
        };
        if l.seg_index >= self.segment_count() {
            return None;
        }
        let e = self.segment_at_ord(l.seg_index);
        Some(SampleMeta { samp_rate: e.header.samp_rate_bits, rx_time: ts })
    }

    /// The stream tags applicable to the most recent run: the entries of
    /// its segment's extra dictionary, each placed at the segment's first
    /// sample. Empty when no run is recorded or the extra record is no
    /// dictionary. Computed here on demand, never inside the copy loop.
    fn get_last_read_tags(&self) -> (r: Vec<StreamTag>)
        requires
            self.inv(),
        ensures
            self.last_run() matches Some(l) ==> tags_match(self.entries(), l, r@),
    {
        let l = match self.last_run_get() {
            None => {
                return Vec::new();
            },
            Some(l) => l,
        };
        if l.seg_index >= self.segment_count() {
            return Vec::new();
        }
        let e = self.segment_at_ord(l.seg_index);
        let fs = e.first_sample;
        match e.header.extra_dict {
            Tag::Dict(ds) => {
                proof {
                    crate::pmt::lemma_entries_view(ds@);
                }
                let mut out: Vec<StreamTag> = Vec::new();
                let mut k: usize = 0;
                while k < ds.len()
                    invariant
                        k <= ds@.len(),
                        out@.len() == k,
                        forall|j: int|
                            0 <= j < k ==> (#[trigger] out@[j]).key@ == ds@[j].0@ && out@[j].value@
                                == ds@[j].1@ && out@[j].sample == fs,
                    decreases ds@.len() - k,
                {
                    let key = crate::pmt::clone_bytes(&ds[k].0);
                    let value = ds[k].1.clone();
                    out.push(StreamTag { sample: fs, key, value });
                    k = k + 1;
                }
                out
            },
            _ => Vec::new(),
        }
    }


    /// Like `read_samples`, substituting the conversion lattice for the
    /// exact-representation gate and converting each sample into the
    /// buffer's element type instead of copying verbatim. Expect it to be
    /// slightly slower than a direct read.
    #[verifier::spinoff_prover]
    #[verifier::rlimit(100)]
    fn read_conv<T: ConvertElement>(&mut self, buf: &mut Vec<T>) -> (r: Result<u64, MetaFileError>)
        requires
            old(self).inv(),
        ensures
            final(self).inv(),
            final(self).data() == old(self).data(),
            old(self).entries().is_prefix_of(final(self).entries()),
            old(self).cursor() <= final(self).cursor(),
            final(buf).len() == old(buf).len(),
            r matches Ok(n) ==> n <= old(buf).len(),
            r matches Ok(n) ==> forall|j: int|
                n <= j < old(buf)@.len() ==> final(buf)@[j] == old(buf)@[j],
            r matches Ok(n) ==> has_conv_trace::<T>(
                final(self).entries(),
                final(self).data(),
                old(self).cursor() as int,
                final(buf)@.take(n as int),
            ),
            r matches Ok(n) ==> n < old(buf).len() ==> conv_blocked::<T>(
                final(self).entries(),
                final(self).cursor() as int,
                final(self).last_run(),
            ),
            old(buf).len() == 0 ==> r == Ok::<u64, MetaFileError>(0),
            r matches Err(e) ==> e != MetaFileError::SeekOutOfBounds && e
                != MetaFileError::SeekConstraint,
            conv_ready::<T>(old(self).entries(), old(self).cursor() as int) && old(buf).len() > 0
                ==> (r matches Ok(n3) ==> n3 >= 1),
    {
        self.set_last_run_info(None);
        let mut n: usize = 0;
        let ghost mut ps: Seq<int> = Seq::empty();
        let ghost c0 = old(self).cursor() as int;
        proof {
            self.inv_facts();
            assert(self.entries().is_prefix_of(self.entries())) by {
                assert(self.entries() =~= self.entries().subrange(0, self.entries().len() as int));
            }
        }
        loop
            invariant
                self.inv(),
                self.data() == old(self).data(),
                old(self).entries().is_prefix_of(self.entries()),
                c0 == old(self).cursor() as int,
                old(self).cursor() <= self.cursor(),
                buf@.len() == old(buf)@.len(),
                n <= buf@.len(),
                ps.len() == n,
                forall|j: int| n <= j < old(buf)@.len() ==> buf@[j] == old(buf)@[j],
                conv_trace_ok::<T>(self.entries(), self.data(), c0, ps, buf@.take(n as int)),
                n > 0 ==> ps[n - 1] < self.cursor(),
                n == 0 ==> self.last_run() is None,
                n > 0 ==> run_links_trace(self.entries(), self.last_run(), ps[n - 1]),
                conv_ready::<T>(old(self).entries(), c0) && n == 0 ==> self.entries() == old(
                    self,
                ).entries() && self.cursor() == old(self).cursor(),
            decreases buf@.len() - n,
        {
            if n == buf.len() {
                proof {
                    lemma_witness_conv_trace::<T>(self.entries(), self.data(), old(self).cursor() as int, ps, buf@.take((n as u64) as int));
                }
                return Ok(n as u64);
            }
            let ghost pre_entries = self.entries();
            proof {
                self.inv_facts();
            }
            let step = self.advance_to_sample()?;
            proof {
                self.inv_facts();
                lemma_prefix_trans(old(self).entries(), pre_entries, self.entries());
                lemma_conv_trace_prefix::<T>(
                    pre_entries,
                    self.entries(),
                    self.data(),
                    c0,
                    ps,
                    buf@.take(n as int),
                );
                if n > 0 {
                    lemma_lookup(pre_entries, ps[n - 1]);
                    lemma_lookup_prefix(pre_entries, self.entries(), ps[n - 1]);
                }
            }
            match step {
                None => {
                    proof {
                        lemma_lookup(self.entries(), self.cursor() as int);
                        lemma_witness_conv_trace::<T>(self.entries(), self.data(), old(self).cursor() as int, ps, buf@.take((n as u64) as int));
                        if conv_ready::<T>(old(self).entries(), c0) && n == 0 {
                            assert(false);
                        }
                    }
                    return Ok(n as u64);
                },
                Some((idx, e)) => {
                    proof {
                        lemma_wf_entry(self.entries(), idx as int);
                    }
                    let cur = self.cursor_pos();
                    let sb = e.header.sample_bytes();
                    let end = e.header.abs_pos + e.header.bytes;
                    let f = T::fmt_val();
                    let cw: u64 = (dtype_width_val(e.header.dtype) as u64) * (
                    if e.header.cplx {
                        2
                    } else {
                        1
                    });
                    if !(e.header.dtype.converts_to(e.header.cplx, f) && sb == cw) {
                        proof {
                            lemma_witness_conv_trace::<T>(self.entries(), self.data(), old(self).cursor() as int, ps, buf@.take((n as u64) as int));
                            if conv_ready::<T>(old(self).entries(), c0) && n == 0 {
                                assert(false);
                            }
                        }
                        return Ok(n as u64);
                    }
                    if end - cur < sb {
                        proof {
                            lemma_witness_conv_trace::<T>(self.entries(), self.data(), old(self).cursor() as int, ps, buf@.take((n as u64) as int));
                            if conv_ready::<T>(old(self).entries(), c0) && n == 0 {
                                assert(false);
                            }
                        }
                        return Ok(n as u64);
                    }
                    let lr = self.last_run_get();
                    match lr {
                        None => {},
                        Some(l) => {
                            if l.seg_index == idx {
                                proof {
                                    if n > 0 {
                                        lemma_step_ok(
                                            self.entries(),
                                            ps[n - 1],
                                            cur as int,
                                            l.seg_index as int,
                                            idx as int,
                                        );
                                    }
                                }
                            } else if l.seg_index >= self.segment_count() {
                                proof {
                                    assert(false);
                                }
                            } else {
                                proof {
                                    lemma_wf_entry(self.entries(), l.seg_index as int);
                                }
                                let le = self.segment_at_ord(l.seg_index);
                                if !(e.header.is_compatible_with(&le.header, SeekPreserve::All)
                                    && e.header.is_continuation_of(&le.header)) {
                                    proof {
                                        lemma_witness_conv_trace::<T>(self.entries(), self.data(), old(self).cursor() as int, ps, buf@.take((n as u64) as int));
                                    }
                                    return Ok(n as u64);
                                }
                                proof {
                                    if n > 0 {
                                        lemma_compat_like(
                                            &e.header,
                                            &le.header,
                                            &self.entries()[idx as int].header,
                                            &self.entries()[l.seg_index as int].header,
                                            SeekPreserve::All,
                                        );
                                        lemma_step_ok(
                                            self.entries(),
                                            ps[n - 1],
                                            cur as int,
                                            l.seg_index as int,
                                            idx as int,
                                        );
                                    }
                                }
                            }
                        },
                    }
                    let remaining: u64 = (end - cur) / sb;
                    proof {
                        lemma_offset_in_segment(&self.entries()[idx as int].header, cur as int);
                    }
                    let avail: usize = buf.len() - n;
                    let t: usize = if (avail as u64) <= remaining {
                        avail
                    } else {
                        remaining as usize
                    };
                    proof {
                        lemma_take_fits(end - cur, sb as int, t as int);
                    }
                    let ghost pre_buf = buf@;
                    let ghost es_snap = self.entries();
                    let ghost lr_snap = self.last_run();
                    let w: usize = sb as usize;
                    let mut k: usize = 0;
                    let mut rpos: u64 = cur;
                    proof {
                        vstd::arithmetic::mul::lemma_mul_nonnegative(t as int, w as int);
                    }
                    while k < t
                        invariant
                            self.inv(),
                            self.entries() == es_snap,
                            self.data() == old(self).data(),
                            self.cursor() == cur,
                            self.last_run() == lr_snap,
                            old(self).entries().is_prefix_of(self.entries()),
                            old(self).cursor() <= cur,
                            buf@.len() == pre_buf.len(),
                            pre_buf.len() == old(buf)@.len(),
                            n + t <= buf@.len(),
                            n + t <= buf.len(),
                            k <= t,
                            0 <= (idx as int) < self.entries().len(),
                            self.entries()[idx as int].header.wf(),
                            w == self.entries()[idx as int].header.spec_sb(),
                            spec_converts_to(
                                self.entries()[idx as int].header.dtype,
                                self.entries()[idx as int].header.cplx,
                                T::fmt(),
                            ),
                            w == dtype_chunk(self.entries()[idx as int].header.dtype, T::fmt()),
                            e.header.dtype == self.entries()[idx as int].header.dtype,
                            1 <= w,
                            rpos == cur + k * w,
                            k > 0 ==> cur + k * w <= self.data().len(),
                            self.data().len() <= u64::MAX,
                            forall|j: int|
                                (0 <= j < n || n + k <= j < pre_buf.len()) ==> buf@[j]
                                    == pre_buf[j],
                            forall|kk: int|
                                0 <= kk < k ==> buf@[n + kk] == T::convert_spec(
                                    self.entries()[idx as int].header.dtype,
                                    #[trigger] self.data().subrange(
                                        cur + kk * w,
                                        cur + (kk + 1) * w,
                                    ),
                                ),
                        decreases t - k,
                    {
                        let chunk = match self.read_data_at(rpos, w) {
                            Ok(v) => v,
                            Err(e2) => {
                                return Err(e2);
                            },
                        };
                        let val = T::convert(e.header.dtype, &chunk, 0);
                        proof {
                            assert(chunk@.subrange(0, w as int) =~= chunk@);
                        }
                        buf.set(n + k, val);
                        proof {
                            assert((k + 1) * (w as int) == k * (w as int) + w) by {
                                vstd::arithmetic::mul::lemma_mul_is_distributive_add_other_way(
                                    w as int,
                                    k as int,
                                    1,
                                );
                            }
                        }
                        rpos = rpos + (w as u64);
                        k = k + 1;
                    }
                    proof {
                        ps = lemma_extend_conv_trace::<T>(
                            self.entries(),
                            self.data(),
                            c0,
                            ps,
                            buf@,
                            cur as int,
                            w as int,
                            t as int,
                            n as int,
                            idx as int,
                            pre_buf,
                        );
                    }
                    let off = e.header.get_sample_pos_of_byte(cur);
                    self.set_last_run_info(
                        Some(LastRun { seg_index: idx, start_offset: off, count: t as u64 }),
                    );
                    self.set_cursor_pos(cur + (t as u64) * (w as u64));
                    proof {
                        vstd::arithmetic::mul::lemma_mul_is_distributive_sub_other_way(
                            w as int,
                            t as int,
                            1,
                        );
                        vstd::arithmetic::mul::lemma_mul_nonnegative(t - 1, w as int);
                    }
                    n = n + t;
                },
            }
        }
    }

    /// The segment holding a global sample, discovering headers as needed;
    /// nothing when the stream ends before reaching it.
    fn get_entry_for_sample(&mut self, g: u64) -> (r: Result<
        Option<(usize, SegmentEntry)>,
        MetaFileError,
    >)
        requires
            old(self).inv(),
        ensures
            final(self).inv(),
            final(self).data() == old(self).data(),
            final(self).cursor() == old(self).cursor(),
            final(self).last_run() == old(self).last_run(),
            old(self).entries().is_prefix_of(final(self).entries()),
            r matches Ok(Some(p)) ==> spec_sample_lookup(final(self).entries(), g as int) == Some(
                p.0 as int,
            ) && p.0 < final(self).entries().len() && entry_like(
                &p.1,
                &final(self).entries()[p.0 as int],
            ),
            r matches Ok(None::<(usize, SegmentEntry)>) ==> spec_total_samples(
                final(self).entries(),
            ) <= g,
            r matches Err(e) ==> e != MetaFileError::SeekOutOfBounds && e != MetaFileError::SeekConstraint,
            spec_sample_lookup(old(self).entries(), g as int) is Some ==> final(self).entries()
                == old(self).entries() && r matches Ok(Some(p2)),
            r matches Ok(None::<(usize, SegmentEntry)>) ==> load_outcome_parts(
                final(self).header_stream(),
                final(self).record_pos((spec_hw(final(self).entries()) as u64)),
                final(self).uses_separate_header_stream(),
                spec_hw(final(self).entries()) as u64,
            ) == LoadOutcome::End,
    {
        proof {
            self.inv_facts();
            assert(self.entries().is_prefix_of(self.entries())) by {
                assert(self.entries() =~= self.entries().subrange(0, self.entries().len() as int));
            }
        }
        if let Some(i) = self.find_sample_index(g) {
            proof {
                lemma_sample_lookup(self.entries(), g as int);
            }
            let e = self.segment_at_ord(i);
            return Ok(Some((i, e)));
        }
        proof {
            lemma_sample_lookup(self.entries(), g as int);
        }
        loop
            invariant
                self.inv(),
                self.data() == old(self).data(),
                self.cursor() == old(self).cursor(),
                self.last_run() == old(self).last_run(),
                old(self).entries().is_prefix_of(self.entries()),
                spec_total_samples(self.entries()) <= g,
                spec_sample_lookup(old(self).entries(), g as int) is None,
            decreases g + 1 - spec_total_samples(self.entries()), u64::MAX - spec_hw(self.entries()),
        {
            let first_byte = self.get_first_byte_of_next_header_to_read();
            let ghost pre = self.entries();
            match self.load_next_header(first_byte)? {
                None => {
                    return Ok(None);
                },
                Some(h) => {
                    let end = h.abs_pos + h.bytes;
                    if end <= first_byte {
                        return Err(MetaFileError::NonMonotonicHeader);
                    }
                    let ns = h.get_num_samples();
                    self.record_header(first_byte, h);
                    proof {
                        self.inv_facts();
                        assert(self.entries().drop_last() =~= pre);
                        assert(old(self).entries().is_prefix_of(self.entries())) by {
                            let o = old(self).entries();
                            assert(o.subrange(0, o.len() as int) =~= pre.subrange(
                                0,
                                o.len() as int,
                            ));
                        }
                        lemma_wf_entry(self.entries(), self.entries().len() - 1);
                        lemma_num_samples_le_bytes(
                            &self.entries()[self.entries().len() - 1].header,
                        );
                    }
                    let total = self.total_loaded_samples();
                    if total > g {
                        proof {
                            lemma_sample_lookup_found(
                                self.entries(),
                                self.entries().len() - 1,
                                g as int,
                            );
                        }
                        match self.find_sample_index(g) {
                            Some(i) => {
                                let e = self.segment_at_ord(i);
                                return Ok(Some((i, e)));
                            },
                            None => {
                                proof {
                                    assert(false);
                                }
                                return Err(MetaFileError::IoError);
                            },
                        }
                    }
                },
            }
        }
    }

    /// Discovers headers until at least `k + 1` segments are indexed;
    /// false when the stream ends first.
    fn load_until_count(&mut self, k: usize) -> (r: Result<bool, MetaFileError>)
        requires
            old(self).inv(),
        ensures
            final(self).inv(),
            final(self).data() == old(self).data(),
            final(self).cursor() == old(self).cursor(),
            final(self).last_run() == old(self).last_run(),
            old(self).entries().is_prefix_of(final(self).entries()),
            r matches Ok(b) ==> b == (k < final(self).entries().len()),
            r matches Err(e) ==> e != MetaFileError::SeekOutOfBounds && e != MetaFileError::SeekConstraint,
            k < old(self).entries().len() ==> final(self).entries() == old(self).entries() && r
                == Ok::<bool, MetaFileError>(true),
            r == Ok::<bool, MetaFileError>(false) ==> load_outcome_parts(
                final(self).header_stream(),
                final(self).record_pos((spec_hw(final(self).entries()) as u64)),
                final(self).uses_separate_header_stream(),
                spec_hw(final(self).entries()) as u64,
            ) == LoadOutcome::End,
    {
        proof {
            self.inv_facts();
            assert(self.entries().is_prefix_of(self.entries())) by {
                assert(self.entries() =~= self.entries().subrange(0, self.entries().len() as int));
            }
        }
        loop
            invariant
                self.inv(),
                self.data() == old(self).data(),
                self.cursor() == old(self).cursor(),
                self.last_run() == old(self).last_run(),
                old(self).entries().is_prefix_of(self.entries()),
                k < old(self).entries().len() ==> self.entries() == old(self).entries(),
            decreases k + 1 - self.entries().len(),
        {
            if k < self.segment_count() {
                return Ok(true);
            }
            let first_byte = self.get_first_byte_of_next_header_to_read();
            let ghost pre = self.entries();
            match self.load_next_header(first_byte)? {
                None => {
                    return Ok(false);
                },
                Some(h) => {
                    let end = h.abs_pos + h.bytes;
                    if end <= first_byte {
                        return Err(MetaFileError::NonMonotonicHeader);
                    }
                    self.record_header(first_byte, h);
                    proof {
                        assert(self.entries().drop_last() =~= pre);
                        assert(old(self).entries().is_prefix_of(self.entries())) by {
                            let o = old(self).entries();
                            assert(o.subrange(0, o.len() as int) =~= pre.subrange(
                                0,
                                o.len() as int,
                            ));
                        }
                    }
                },
            }
        }
    }

    /// Discovers every remaining header, to the end of the stream.
    fn load_all(&mut self) -> (r: Result<(), MetaFileError>)
        requires
            old(self).inv(),
        ensures
            final(self).inv(),
            final(self).data() == old(self).data(),
            final(self).cursor() == old(self).cursor(),
            final(self).last_run() == old(self).last_run(),
            old(self).entries().is_prefix_of(final(self).entries()),
            r matches Err(e) ==> e != MetaFileError::SeekOutOfBounds && e != MetaFileError::SeekConstraint,
            r is Ok ==> load_outcome_parts(
                final(self).header_stream(),
                final(self).record_pos((spec_hw(final(self).entries()) as u64)),
                final(self).uses_separate_header_stream(),
                spec_hw(final(self).entries()) as u64,
            ) == LoadOutcome::End,
    {
        proof {
            self.inv_facts();
            assert(self.entries().is_prefix_of(self.entries())) by {
                assert(self.entries() =~= self.entries().subrange(0, self.entries().len() as int));
            }
        }
        loop
            invariant
                self.inv(),
                self.data() == old(self).data(),
                self.cursor() == old(self).cursor(),
                self.last_run() == old(self).last_run(),
                old(self).entries().is_prefix_of(self.entries()),
            decreases u64::MAX - spec_hw(self.entries()),
        {
            let first_byte = self.get_first_byte_of_next_header_to_read();
            let ghost pre = self.entries();
            match self.load_next_header(first_byte)? {
                None => {
                    return Ok(());
                },
                Some(h) => {
                    let end = h.abs_pos + h.bytes;
                    if end <= first_byte {
                        return Err(MetaFileError::NonMonotonicHeader);
                    }
                    self.record_header(first_byte, h);
                    proof {
                        self.inv_facts();
                        assert(self.entries().drop_last() =~= pre);
                        assert(old(self).entries().is_prefix_of(self.entries())) by {
                            let o = old(self).entries();
                            assert(o.subrange(0, o.len() as int) =~= pre.subrange(
                                0,
                                o.len() as int,
                            ));
                        }
                    }
                },
            }
        }
    }

    /// Seeks to a sample position, requiring the destination segment to
    /// honor the preserve level against the segment currently governing
    /// the cursor. On failure the cursor is untouched; on success it rests
    /// on the destination sample, whose global index is returned.
    #[verifier::spinoff_prover]
    #[verifier::rlimit(100)]
    fn seek(&mut self, pos: SeekFrom, preserve: SeekPreserve) -> (r: Result<u64, MetaFileError>)
        requires
            old(self).inv(),
        ensures
            final(self).inv(),
            final(self).data() == old(self).data(),
            final(self).last_run() == old(self).last_run(),
            old(self).entries().is_prefix_of(final(self).entries()),
            r matches Err(e2) ==> final(self).cursor() == old(self).cursor(),
            r matches Ok(g) ==> {
                &&& spec_sample_lookup(final(self).entries(), g as int) matches Some(i)
                &&& final(self).cursor() == spec_sample_byte(final(self).entries(), i, g as int)
                &&& seek_gate(
                    final(self).entries(),
                    i,
                    spec_lookup(final(self).entries(), old(self).cursor() as int),
                    preserve,
                )
            },
            pos matches SeekFrom::Start(k) ==> (r matches Ok(g) ==> g == k),
            seek_start_outcome(pos, r, final(self).entries(), old(self).cursor() as int, preserve),
            seek_start_ready(pos, old(self).entries(), old(self).cursor() as int, preserve)
                ==> r matches Ok(g3),
    {
        proof {
            self.inv_facts();
            assert(self.entries().is_prefix_of(self.entries())) by {
                assert(self.entries() =~= self.entries().subrange(0, self.entries().len() as int));
            }
        }
        let cursor0 = self.cursor_pos();
        let target: u64 = match pos {
            SeekFrom::Start(k) => k,
            SeekFrom::Current(d) => {
                if self.get_entry_for_byte(cursor0)?.is_none() {
                    return Err(MetaFileError::SeekOutOfBounds);
                }
                proof {
                    self.inv_facts();
                }
                let c = match self.find_index(cursor0) {
                    None => {
                        proof {
                            assert(false);
                        }
                        return Err(MetaFileError::SeekOutOfBounds);
                    },
                    Some(c) => c,
                };
                proof {
                    lemma_lookup(self.entries(), cursor0 as int);
                    lemma_wf_entry(self.entries(), c as int);
                }
                let e = self.segment_at_ord(c);
                let off: u64 = if cursor0 <= e.header.abs_pos {
                    0
                } else {
                    (cursor0 - e.header.abs_pos) / e.header.sample_bytes()
                };
                let g0 = (e.first_sample as i128) + (off as i128) + (d as i128);
                if g0 < 0 || g0 > u64::MAX as i128 {
                    return Err(MetaFileError::SeekOutOfBounds);
                }
                g0 as u64
            },
            SeekFrom::End(d) => {
                self.load_all()?;
                let total = self.total_loaded_samples();
                let g0 = (total as i128) + (d as i128);
                if g0 < 0 || g0 > u64::MAX as i128 {
                    return Err(MetaFileError::SeekOutOfBounds);
                }
                g0 as u64
            },
        };
        let ghost mid = self.entries();
        let dest = match self.get_entry_for_sample(target)? {
            None => {
                proof {
                    self.inv_facts();
                    lemma_sample_lookup(self.entries(), target as int);
                }
                return Err(MetaFileError::SeekOutOfBounds);
            },
            Some(p) => p,
        };
        proof {
            self.inv_facts();
            lemma_prefix_trans(old(self).entries(), mid, self.entries());
            lemma_wf_entry(self.entries(), dest.0 as int);
            lemma_sample_lookup(self.entries(), target as int);
        }
        let (idx, e) = dest;
        let pass = match self.find_index(cursor0) {
            None => preserve != SeekPreserve::Segment,
            Some(c) => {
                proof {
                    lemma_lookup(self.entries(), cursor0 as int);
                }
                let ce = self.segment_at_ord(c);
                (preserve != SeekPreserve::Segment || c == idx) && e.header.is_compatible_with(
                    &ce.header,
                    preserve,
                )
            },
        };
        if !pass {
            return Err(MetaFileError::SeekConstraint);
        }
        let sb = e.header.sample_bytes();
        proof {
            lemma_num_samples_le_bytes(&self.entries()[idx as int].header);
            vstd::arithmetic::mul::lemma_mul_inequality(
                target - e.first_sample,
                self.entries()[idx as int].header.spec_ns() - 1,
                sb as int,
            );
            vstd::arithmetic::mul::lemma_mul_is_distributive_sub_other_way(
                sb as int,
                self.entries()[idx as int].header.spec_ns(),
                1,
            );
            vstd::arithmetic::mul::lemma_mul_nonnegative(target - e.first_sample, sb as int);
            assert(self.entries()[idx as int].header.spec_ns() * sb == self.entries()[idx as int]
                .header.bytes) by {
                vstd::arithmetic::div_mod::lemma_fundamental_div_mod(
                    self.entries()[idx as int].header.bytes as int,
                    sb as int,
                );
                vstd::arithmetic::mul::lemma_mul_is_commutative(
                    sb as int,
                    self.entries()[idx as int].header.spec_ns(),
                );
            }
        }
        let b = e.header.abs_pos + (target - e.first_sample) * sb;
        self.set_cursor_pos(b);
        Ok(target)
    }

    /// Seeks to the first sample of a segment addressed by ordinal, under
    /// the same preserve contract as `seek`. Returns the destination's
    /// global sample index.
    fn seek_segment(&mut self, pos_seg: SeekFrom, preserve: SeekPreserve) -> (r: Result<
        u64,
        MetaFileError,
    >)
        requires
            old(self).inv(),
        ensures
            final(self).inv(),
            final(self).data() == old(self).data(),
            final(self).last_run() == old(self).last_run(),
            old(self).entries().is_prefix_of(final(self).entries()),
            r matches Err(e2) ==> final(self).cursor() == old(self).cursor(),
            r matches Ok(g) ==> exists|k: int|
                {
                    &&& 0 <= k < final(self).entries().len()
                    &&& final(self).cursor() == (#[trigger] final(self).entries()[k]).header
                        .abs_pos
                    &&& g == final(self).entries()[k].first_sample
                    &&& seek_gate(
                        final(self).entries(),
                        k,
                        spec_lookup(final(self).entries(), old(self).cursor() as int),
                        preserve,
                    )
                },
            seek_segment_start_outcome(
                pos_seg,
                r,
                final(self).entries(),
                final(self).cursor() as int,
            ),
            seek_segment_start_ready(pos_seg, old(self).entries(), old(self).cursor() as int, preserve)
                ==> r matches Ok(g3),
    {
        proof {
            self.inv_facts();
            assert(self.entries().is_prefix_of(self.entries())) by {
                assert(self.entries() =~= self.entries().subrange(0, self.entries().len() as int));
            }
        }
        let cursor0 = self.cursor_pos();
        let ord: usize = match pos_seg {
            SeekFrom::Start(k) => {
                if k > usize::MAX as u64 {
                    return Err(MetaFileError::SeekOutOfBounds);
                }
                k as usize
            },
            SeekFrom::Current(d) => {
                let c = match self.find_index(cursor0) {
                    None => {
                        return Err(MetaFileError::SeekOutOfBounds);
                    },
                    Some(c) => c,
                };
                let k0 = (c as i128) + (d as i128);
                if k0 < 0 || k0 > usize::MAX as i128 {
                    return Err(MetaFileError::SeekOutOfBounds);
                }
                k0 as usize
            },
            SeekFrom::End(d) => {
                self.load_all()?;
                let k0 = (self.segment_count() as i128) + (d as i128);
                if k0 < 0 || k0 > usize::MAX as i128 {
                    return Err(MetaFileError::SeekOutOfBounds);
                }
                k0 as usize
            },
        };
        let ghost mid = self.entries();
        if !(self.load_until_count(ord)?) {
            proof {
                lemma_prefix_trans(old(self).entries(), mid, self.entries());
            }
            return Err(MetaFileError::SeekOutOfBounds);
        }
        proof {
            self.inv_facts();
            lemma_prefix_trans(old(self).entries(), mid, self.entries());
            lemma_wf_entry(self.entries(), ord as int);
        }
        let e = self.segment_at_ord(ord);
        let pass = match self.find_index(cursor0) {
            None => preserve != SeekPreserve::Segment,
            Some(c) => {
                proof {
                    lemma_lookup(self.entries(), cursor0 as int);
                }
                let ce = self.segment_at_ord(c);
                (preserve != SeekPreserve::Segment || c == ord) && e.header.is_compatible_with(
                    &ce.header,
                    preserve,
                )
            },
        };
        if !pass {
            return Err(MetaFileError::SeekConstraint);
        }
        self.set_cursor_pos(e.header.abs_pos);
        proof {
            assert({
                &&& 0 <= (ord as int) < self.entries().len()
                &&& self.cursor() == self.entries()[ord as int].header.abs_pos
                &&& e.first_sample == self.entries()[ord as int].first_sample
                &&& seek_gate(
                    self.entries(),
                    ord as int,
                    spec_lookup(self.entries(), old(self).cursor() as int),
                    preserve,
                )
            });
        }
        Ok(e.first_sample)
    }

    /// Advances segment by segment from the current one until a segment
    /// whose encoding converts to the target is found, landing on its
    /// first sample and returning the number of segments skipped; fails
    /// with the cursor untouched when the stream ends first.
    fn seek_valid_segment(&mut self, target: TargetFormat) -> (r: Result<u64, MetaFileError>)
        requires
            old(self).inv(),
        ensures
            final(self).inv(),
            final(self).data() == old(self).data(),
            final(self).last_run() == old(self).last_run(),
            old(self).entries().is_prefix_of(final(self).entries()),
            r matches Err(e2) ==> final(self).cursor() == old(self).cursor(),
            r matches Ok(sk) ==> spec_lookup(final(self).entries(), old(self).cursor() as int)
                matches Some(c) && valid_seek_ok(
                final(self).entries(),
                c,
                sk as int,
                final(self).cursor() as int,
                target,
            ),
            valid_seek_ready(old(self).entries(), old(self).cursor() as int, target) ==> r matches
                Ok(sk3),
            r == Err::<u64, MetaFileError>(MetaFileError::SeekOutOfBounds) ==> !valid_seek_ready(
                final(self).entries(),
                old(self).cursor() as int,
                target,
            ),
    {
        proof {
            self.inv_facts();
            assert(self.entries().is_prefix_of(self.entries())) by {
                assert(self.entries() =~= self.entries().subrange(0, self.entries().len() as int));
            }
        }
        let cursor0 = self.cursor_pos();
        if self.get_entry_for_byte(cursor0)?.is_none() {
            proof {
                self.inv_facts();
                lemma_lookup(self.entries(), cursor0 as int);
            }
            return Err(MetaFileError::SeekOutOfBounds);
        }
        proof {
            self.inv_facts();
        }
        let c = match self.find_index(cursor0) {
            None => {
                proof {
                    assert(false);
                }
                return Err(MetaFileError::SeekOutOfBounds);
            },
            Some(c) => c,
        };
        proof {
            lemma_lookup(self.entries(), cursor0 as int);
        }
        let mut k: usize = c;
        loop
            invariant
                self.inv(),
                self.data() == old(self).data(),
                self.cursor() == old(self).cursor(),
                self.last_run() == old(self).last_run(),
                old(self).entries().is_prefix_of(self.entries()),
                spec_lookup(self.entries(), cursor0 as int) == Some(c as int),
                cursor0 == old(self).cursor(),
                c <= k,
                k <= self.entries().len(),
                forall|j: int|
                    c <= j < k ==> !spec_converts_to(
                        (#[trigger] self.entries()[j]).header.dtype,
                        self.entries()[j].header.cplx,
                        target,
                    ),
                valid_seek_ready(old(self).entries(), cursor0 as int, target) ==> self.entries()
                    == old(self).entries() && k < self.entries().len(),
            decreases u64::MAX - spec_hw(self.entries()), usize::MAX - k,
        {
            proof {
                self.inv_facts();
            }
            let ghost pre = self.entries();
            let have = self.load_until_count(k)?;
            proof {
                self.inv_facts();
                lemma_prefix_trans(old(self).entries(), pre, self.entries());
                assert(forall|j: int|
                    0 <= j < pre.len() ==> pre[j] == #[trigger] self.entries()[j]) by {
                    assert(pre =~= self.entries().subrange(0, pre.len() as int));
                }
                lemma_lookup(pre, cursor0 as int);
                lemma_lookup_prefix(pre, self.entries(), cursor0 as int);
                lemma_hw_monotone(pre, self.entries());
                assert(forall|j: int|
                    c <= j < k ==> !spec_converts_to(
                        (#[trigger] self.entries()[j]).header.dtype,
                        self.entries()[j].header.cplx,
                        target,
                    ));
            }
            if !have {
                proof {
                    if valid_seek_ready(self.entries(), cursor0 as int, target) {
                        let j = choose|j: int|
                            (c as int) <= j < self.entries().len() && spec_converts_to(
                                (#[trigger] self.entries()[j]).header.dtype,
                                self.entries()[j].header.cplx,
                                target,
                            );
                        assert(false);
                    }
                }
                return Err(MetaFileError::SeekOutOfBounds);
            }
            proof {
                lemma_wf_entry(self.entries(), k as int);
            }
            let e = self.segment_at_ord(k);
            if e.header.dtype.converts_to(e.header.cplx, target) {
                self.set_cursor_pos(e.header.abs_pos);
                proof {
                    assert(valid_seek_ok(
                        self.entries(),
                        c as int,
                        k - c,
                        self.cursor() as int,
                        target,
                    ));
                }
                return Ok((k - c) as u64);
            }
            if k == usize::MAX {
                proof {
                    if valid_seek_ready(self.entries(), cursor0 as int, target) {
                        let j = choose|j: int|
                            (c as int) <= j < self.entries().len() && spec_converts_to(
                                (#[trigger] self.entries()[j]).header.dtype,
                                self.entries()[j].header.cplx,
                                target,
                            );
                        assert(false);
                    }
                }
                return Err(MetaFileError::SeekOutOfBounds);
            }
            k = k + 1;
        }
    }

}

/// Prefix extension is transitive.
pub proof fn lemma_prefix_trans(a: Seq<SegmentEntry>, b: Seq<SegmentEntry>, c: Seq<SegmentEntry>)
    requires
        a.is_prefix_of(b),
        b.is_prefix_of(c),
    ensures
        a.is_prefix_of(c),
{
    assert(a =~= c.subrange(0, a.len() as int));
}

/// Every segment ends at or before the high-water mark.
pub proof fn lemma_end_le_hw(s: Seq<SegmentEntry>, i: int)
    requires
        entries_wf(s),
        0 <= i < s.len(),
    ensures
        s[i].header.spec_end() <= spec_hw(s),
    decreases s.len(),
{
    if i < s.len() - 1 {
        assert(forall|j: int| 0 <= j < s.len() - 1 ==> s.drop_last()[j] == s[j]);
        lemma_end_le_hw(s.drop_last(), i);
        lemma_wf_entry(s, s.len() - 1);
    }
}

/// Extending the index never lowers the high-water mark.
pub proof fn lemma_hw_monotone(s1: Seq<SegmentEntry>, s2: Seq<SegmentEntry>)
    requires
        entries_wf(s2),
        s1.is_prefix_of(s2),
    ensures
        spec_hw(s1) <= spec_hw(s2),
    decreases s2.len(),
{
    if s1.len() < s2.len() {
        assert(forall|j: int| 0 <= j < s2.len() - 1 ==> s2.drop_last()[j] == s2[j]);
        assert(s1.is_prefix_of(s2.drop_last())) by {
            assert(s1 =~= s2.drop_last().subrange(0, s1.len() as int));
        }
        lemma_hw_monotone(s1, s2.drop_last());
        lemma_wf_entry(s2, s2.len() - 1);
    } else {
        assert(s1 =~= s2);
    }
}

/// Extending the index never changes the governing entry of a byte the
/// index already covered.
pub proof fn lemma_lookup_prefix(s1: Seq<SegmentEntry>, s2: Seq<SegmentEntry>, byte: int)
    requires
        entries_wf(s2),
        s1.is_prefix_of(s2),
        0 <= byte < spec_hw(s1),
    ensures
        spec_lookup(s2, byte) == spec_lookup(s1, byte),
    decreases s2.len(),
{
    if s1.len() < s2.len() {
        assert(forall|j: int| 0 <= j < s2.len() - 1 ==> s2.drop_last()[j] == s2[j]);
        assert(s1.is_prefix_of(s2.drop_last())) by {
            assert(s1 =~= s2.drop_last().subrange(0, s1.len() as int));
        }
        lemma_hw_monotone(s1, s2.drop_last());
        lemma_wf_entry(s2, s2.len() - 1);
        lemma_lookup_prefix(s1, s2.drop_last(), byte);
    } else {
        assert(s1 =~= s2);
    }
}

/// A read trace stays valid when the index grows.
pub proof fn lemma_trace_prefix<T: Element>(
    s1: Seq<SegmentEntry>,
    s2: Seq<SegmentEntry>,
    data: Seq<u8>,
    c0: int,
    ps: Seq<int>,
    vals: Seq<T>,
)
    requires
        entries_wf(s1),
        entries_wf(s2),
        s1.is_prefix_of(s2),
        read_trace_ok::<T>(s1, data, c0, ps, vals),
    ensures
        read_trace_ok::<T>(s2, data, c0, ps, vals),
{
    assert forall|i: int| 0 <= i < ps.len() implies governed_direct(
        s2,
        #[trigger] ps[i],
        T::fmt(),
    ) && spec_lookup(s2, ps[i]) == spec_lookup(s1, ps[i]) by {
        let p = ps[i];
        match spec_lookup(s1, p) {
            Option::Some(k) => {
                lemma_lookup(s1, p);
                lemma_end_le_hw(s1, k);
                lemma_lookup_prefix(s1, s2, p);
                assert(s2[k] == s1[k]) by {
                    assert(s1 =~= s2.subrange(0, s1.len() as int));
                }
            },
            Option::None => {},
        }
    }
    assert forall|i: int| 0 < i < ps.len() implies trace_step_ok(
        s2,
        ps[i - 1],
        #[trigger] ps[i],
    ) by {
        lemma_lookup(s1, ps[i - 1]);
        lemma_lookup(s1, ps[i]);
        assert(forall|j: int| 0 <= j < s1.len() ==> s2[j] == #[trigger] s1[j]) by {
            assert(s1 =~= s2.subrange(0, s1.len() as int));
        }
    }
}

/// Within a segment, the byte offset of the next sample start never
/// reaches past the last one.
pub proof fn lemma_offset_in_segment(h: &Header, cur: int)
    requires
        h.wf(),
        h.abs_pos <= cur,
        cur + h.spec_sb() <= h.spec_end(),
    ensures
        (cur - h.abs_pos) / h.spec_sb() < h.spec_ns(),
        ((h.spec_end() - cur) / h.spec_sb()) >= 1,
        ((h.spec_end() - cur) / h.spec_sb()) <= h.spec_ns(),
{
    let sb = h.spec_sb();
    let off = (cur - h.abs_pos) / sb;
    vstd::arithmetic::div_mod::lemma_div_is_ordered(cur - h.abs_pos, h.bytes - sb, sb);
    assert((h.bytes - sb) / sb == h.spec_ns() - 1) by {
        vstd::arithmetic::div_mod::lemma_fundamental_div_mod(h.bytes as int, sb);
        vstd::arithmetic::mul::lemma_mul_is_distributive_sub_other_way(sb, h.spec_ns(), 1);
        vstd::arithmetic::div_mod::lemma_fundamental_div_mod_converse(
            h.bytes - sb,
            sb,
            h.spec_ns() - 1,
            0,
        );
    }
    vstd::arithmetic::div_mod::lemma_div_is_ordered(sb, h.spec_end() - cur, sb);
    assert(sb / sb == 1) by {
        vstd::arithmetic::div_mod::lemma_fundamental_div_mod_converse(sb, sb, 1, 0);
    }
    vstd::arithmetic::div_mod::lemma_div_is_ordered(h.spec_end() - cur, h.bytes as int, sb);
    assert(h.bytes as int / sb == h.spec_ns());
}

/// Taking no more whole elements than fit keeps the run inside the
/// segment.
pub proof fn lemma_take_fits(room: int, sb: int, t: int)
    requires
        sb >= 1,
        room >= 0,
        0 <= t <= room / sb,
    ensures
        t * sb <= room,
{
    vstd::arithmetic::div_mod::lemma_fundamental_div_mod(room, sb);
    vstd::arithmetic::mul::lemma_mul_inequality(t, room / sb, sb);
}

/// Reads `count` consecutive whole elements starting at absolute byte
/// `pos` of a byte source, decoding each verbatim into
/// `buf[start..start + count]`. On an error a prefix of that range may
/// already have been overwritten.
pub fn read_raw<T: Element, S: ByteSource>(
    reader: &mut S,
    pos: u64,
    count: usize,
    buf: &mut Vec<T>,
    start: usize,
) -> (r: Result<u64, MetaFileError>)
    requires
        start + count <= old(buf).len(),
    ensures
        final(reader).contents() == old(reader).contents(),
        final(buf).len() == old(buf).len(),
        forall|j: int|
            (0 <= j < start || start + count <= j < old(buf)@.len()) ==> final(buf)@[j] == old(
                buf,
            )@[j],
        r matches Err(e) ==> e == MetaFileError::IoError,
        r matches Ok(nn) ==> {
            &&& nn == count
            &&& (count > 0 ==> pos + count * fmt_width(T::fmt()) <= old(reader).contents().len())
            &&& forall|k: int|
                0 <= k < count ==> final(buf)@[start + k] == T::decode_spec(
                    #[trigger] old(reader).contents().subrange(
                        pos + k * fmt_width(T::fmt()),
                        pos + (k + 1) * fmt_width(T::fmt()),
                    ),
                )
        },
{
    let w = T::width();
    let ghost ww = fmt_width(T::fmt());
    let mut k: usize = 0;
    let mut cur: u64 = pos;
    proof {
        reader.contents_len_bounded();
    }
    while k < count
        invariant
            reader.contents() == old(reader).contents(),
            buf@.len() == old(buf)@.len(),
            start + count <= buf@.len(),
            start + count <= buf.len(),
            k <= count,
            w == ww,
            ww == fmt_width(T::fmt()),
            cur == pos + k * ww,
            k > 0 ==> pos + k * ww <= reader.contents().len(),
            reader.contents().len() <= u64::MAX,
            forall|j: int|
                (0 <= j < start || start + k <= j < old(buf)@.len()) ==> buf@[j] == old(buf)@[j],
            forall|kk: int|
                0 <= kk < k ==> buf@[start + kk] == T::decode_spec(
                    #[trigger] reader.contents().subrange(pos + kk * ww, pos + (kk + 1) * ww),
                ),
        decreases count - k,
    {
        let chunk = match reader.read_at(cur, w) {
            Ok(v) => v,
            Err(_) => {
                return Err(MetaFileError::IoError);
            },
        };
        let val = T::decode(&chunk, 0);
        proof {
            assert(chunk@.subrange(0, ww) =~= chunk@);
        }
        buf.set(start + k, val);
        proof {
            assert((k + 1) * ww == k * ww + ww) by {
                vstd::arithmetic::mul::lemma_mul_is_distributive_add_other_way(ww, k as int, 1);
            }
        }
        cur = cur + (w as u64);
        k = k + 1;
    }
    Ok(count as u64)
}

/// A stream whose headers are interleaved with the sample bytes they
/// describe: each segment is a header record, its extra record, then the
/// data bytes, and the next header follows immediately.
pub struct AttachedHeader<S: ByteSource> {
    header_storage: HeaderStorage,
    file: S,
    pos: u64,
    last: Option<LastRun>,
}

impl<S: ByteSource> AttachedHeader<S> {
    /// Wraps a binary stream with attached headers, with the cursor at its
    /// start.
    pub fn new(file: S) -> (r: AttachedHeader<S>)
        ensures
            r.inv(),
            r.entries() == Seq::<SegmentEntry>::empty(),
            r.data() == file.contents(),
            r.cursor() == 0,
            r.last_run() is None,
    {
        AttachedHeader { header_storage: HeaderStorage::new(), file, pos: 0, last: None }
    }
}

impl<S: ByteSource> HeaderReader for AttachedHeader<S> {
    closed spec fn inv(&self) -> bool {
        self.header_storage.wf()
    }

    closed spec fn entries(&self) -> Seq<SegmentEntry> {
        self.header_storage@
    }

    closed spec fn data(&self) -> Seq<u8> {
        self.file.contents()
    }

    closed spec fn cursor(&self) -> u64 {
        self.pos
    }

    closed spec fn last_run(&self) -> Option<LastRun> {
        self.last
    }

    closed spec fn header_stream(&self) -> Seq<u8> {
        self.file.contents()
    }

    closed spec fn record_pos(&self, start_byte: u64) -> int {
        start_byte as int
    }

    closed spec fn uses_separate_header_stream(&self) -> bool {
        false
    }

    proof fn inv_facts(&self) {
        self.file.contents_len_bounded();
    }

    fn load_next_header(&mut self, start_byte: u64) -> (r: Result<Option<Header>, MetaFileError>) {
        proof {
            self.file.contents_len_bounded();
            assert(!self.uses_separate_header_stream());
            assert(self.header_stream() == self.file.contents());
            assert(forall|y: u64| #[trigger] self.record_pos(y) == y as int);
        }
        let tag = match crate::pmt::parse_maybe_eof(&mut self.file, start_byte) {
            Ok(Some(v)) => v,
            Ok(None) => {
                return Ok(None);
            },
            Err(e) => {
                if e == ParseError::IoError {
                    return Err(MetaFileError::IoError);
                }
                return Err(MetaFileError::ParseError(e));
            },
        };
        let extra = match crate::pmt::parse(&mut self.file, tag.1) {
            Ok(v) => v,
            Err(e) => {
                if e == ParseError::IoError {
                    return Err(MetaFileError::IoError);
                }
                return Err(MetaFileError::ParseError(e));
            },
        };
        match Header::from_tags(start_byte, extra.1, tag.0, extra.0) {
            Ok(h) => Ok(Some(h)),
            Err(e) => Err(MetaFileError::InvalidHeader(e)),
        }
    }

    fn storage_find(&self, byte: u64) -> (r: Option<SegmentEntry>) {
        match self.header_storage.get_header_for_byte(byte) {
            Some(e) => Some(e.clone()),
            None => None,
        }
    }

    fn segment_count(&self) -> (r: usize) {
        self.header_storage.num_segments()
    }

    fn segment_at_ord(&self, i: usize) -> (r: SegmentEntry) {
        self.header_storage.segment_at(i).clone()
    }

    fn get_first_byte_of_next_header_to_read(&self) -> (r: u64) {
        self.header_storage.high_water()
    }

    fn record_header(&mut self, byte: u64, header: Header) {
        proof {
            assert(self.header_stream() == self.file.contents());
            assert(!self.uses_separate_header_stream());
            assert(forall|y: u64| #[trigger] self.record_pos(y) == y as int);
        }
        self.header_storage.add_header_for_byte(byte, header);
        proof {
            assert(self.header_stream() == self.file.contents());
            assert(!self.uses_separate_header_stream());
            assert(forall|y: u64| #[trigger] self.record_pos(y) == y as int);
        }
    }
}

/// A stream whose headers live in a separate, positionally synchronized
/// stream: the binary stream holds only sample bytes, and each loaded
/// header describes the data starting where the previous segment ended.
pub struct DettachedHeader<B: ByteSource, H: ByteSource> {
    header_storage: HeaderStorage,
    header_file: H,
    binary_file: B,
    header_pos: u64,
    pos: u64,
    last: Option<LastRun>,
}

impl<B: ByteSource, H: ByteSource> DettachedHeader<B, H> {
    /// Wraps a binary stream and its header stream, with both cursors at
    /// their starts.
    pub fn new(binary_file: B, header_file: H) -> (r: DettachedHeader<B, H>)
        ensures
            r.inv(),
            r.entries() == Seq::<SegmentEntry>::empty(),
            r.data() == binary_file.contents(),
            r.cursor() == 0,
            r.last_run() is None,
    {
        DettachedHeader {
            header_storage: HeaderStorage::new(),
            header_file,
            binary_file,
            header_pos: 0,
            pos: 0,
            last: None,
        }
    }
}

impl<B: ByteSource, H: ByteSource> HeaderReader for DettachedHeader<B, H> {
    closed spec fn inv(&self) -> bool {
        self.header_storage.wf()
    }

    closed spec fn entries(&self) -> Seq<SegmentEntry> {
        self.header_storage@
    }

    closed spec fn data(&self) -> Seq<u8> {
        self.binary_file.contents()
    }

    closed spec fn cursor(&self) -> u64 {
        self.pos
    }

    closed spec fn last_run(&self) -> Option<LastRun> {
        self.last
    }

    closed spec fn header_stream(&self) -> Seq<u8> {
        self.header_file.contents()
    }

    closed spec fn record_pos(&self, start_byte: u64) -> int {
        self.header_pos as int
    }

    closed spec fn uses_separate_header_stream(&self) -> bool {
        true
    }

    proof fn inv_facts(&self) {
        self.binary_file.contents_len_bounded();
    }

    fn load_next_header(&mut self, start_byte: u64) -> (r: Result<Option<Header>, MetaFileError>) {
        proof {
            self.header_file.contents_len_bounded();
            assert(self.uses_separate_header_stream());
            assert(self.header_stream() == self.header_file.contents());
            assert(forall|y: u64| #[trigger] self.record_pos(y) == self.header_pos as int);
        }
        // The header stream's own position always sits at the next record.
        let tag = match crate::pmt::parse_maybe_eof(&mut self.header_file, self.header_pos) {
            Ok(Some(v)) => v,
            Ok(None) => {
                return Ok(None);
            },
            Err(e) => {
                if e == ParseError::IoError {
                    return Err(MetaFileError::IoError);
                }
                return Err(MetaFileError::ParseError(e));
            },
        };
        let pos_in_file = self.header_pos;
        let extra = match crate::pmt::parse(&mut self.header_file, tag.1) {
            Ok(v) => v,
            Err(e) => {
                if e == ParseError::IoError {
                    return Err(MetaFileError::IoError);
                }
                return Err(MetaFileError::ParseError(e));
            },
        };
        match Header::from_tags(pos_in_file, start_byte, tag.0, extra.0) {
            Ok(h) => {
                self.header_pos = extra.1;
                proof {
                    assert(self.header_stream() == self.header_file.contents());
                    assert(forall|y: u64|
                        #[trigger] self.record_pos(y) == self.header_pos as int);
                }
                Ok(Some(h))
            },
            Err(e) => Err(MetaFileError::InvalidHeader(e)),
        }
    }

    fn storage_find(&self, byte: u64) -> (r: Option<SegmentEntry>) {
        match self.header_storage.get_header_for_byte(byte) {
            Some(e) => Some(e.clone()),
            None => None,
        }
    }

    fn segment_count(&self) -> (r: usize) {
        self.header_storage.num_segments()
    }

    fn segment_at_ord(&self, i: usize) -> (r: SegmentEntry) {
        self.header_storage.segment_at(i).clone()
    }

    fn get_first_byte_of_next_header_to_read(&self) -> (r: u64) {
        self.header_storage.high_water()
    }

    fn record_header(&mut self, byte: u64, header: Header) {
        proof {
            assert(self.header_stream() == self.header_file.contents());
            assert(self.uses_separate_header_stream());
            assert(forall|y: u64| #[trigger] self.record_pos(y) == self.header_pos as int);
        }
        self.header_storage.add_header_for_byte(byte, header);
        proof {
            assert(self.header_stream() == self.header_file.contents());
            assert(self.uses_separate_header_stream());
            assert(forall|y: u64| #[trigger] self.record_pos(y) == self.header_pos as int);
        }
    }
}


impl<S: ByteSource> SampleReadSeek for AttachedHeader<S> {
    fn read_data_at(&mut self, pos: u64, n: usize) -> (r: Result<Vec<u8>, MetaFileError>) {
        proof {
            assert(self.header_stream() == self.file.contents());
            assert(!self.uses_separate_header_stream());
            assert(forall|y: u64| #[trigger] self.record_pos(y) == y as int);
        }
        let r = match self.file.read_at(pos, n) {
            Ok(v) => Ok(v),
            Err(_) => Err(MetaFileError::IoError),
        };
        proof {
            assert(self.header_stream() == self.file.contents());
            assert(!self.uses_separate_header_stream());
            assert(forall|y: u64| #[trigger] self.record_pos(y) == y as int);
        }
        r
    }

    fn cursor_pos(&self) -> (r: u64) {
        self.pos
    }

    fn set_cursor_pos(&mut self, c: u64) {
        proof {
            assert(self.header_stream() == self.file.contents());
            assert(!self.uses_separate_header_stream());
            assert(forall|y: u64| #[trigger] self.record_pos(y) == y as int);
        }
        self.pos = c;
        proof {
            assert(self.header_stream() == self.file.contents());
            assert(!self.uses_separate_header_stream());
            assert(forall|y: u64| #[trigger] self.record_pos(y) == y as int);
        }
    }

    fn last_run_get(&self) -> (r: Option<LastRun>) {
        self.last
    }

    fn set_last_run_info(&mut self, lr: Option<LastRun>) {
        proof {
            assert(self.header_stream() == self.file.contents());
            assert(!self.uses_separate_header_stream());
            assert(forall|y: u64| #[trigger] self.record_pos(y) == y as int);
        }
        self.last = lr;
        proof {
            assert(self.header_stream() == self.file.contents());
            assert(!self.uses_separate_header_stream());
            assert(forall|y: u64| #[trigger] self.record_pos(y) == y as int);
        }
    }

    fn total_loaded_samples(&self) -> (r: u64) {
        self.header_storage.total_samples()
    }

    fn find_index(&self, byte: u64) -> (r: Option<usize>) {
        self.header_storage.lookup_index(byte)
    }

    fn find_sample_index(&self, g: u64) -> (r: Option<usize>) {
        self.header_storage.lookup_sample_index(g)
    }
}

impl<B: ByteSource, H: ByteSource> SampleReadSeek for DettachedHeader<B, H> {
    fn read_data_at(&mut self, pos: u64, n: usize) -> (r: Result<Vec<u8>, MetaFileError>) {
        proof {
            assert(self.header_stream() == self.header_file.contents());
            assert(self.uses_separate_header_stream());
            assert(forall|y: u64| #[trigger] self.record_pos(y) == self.header_pos as int);
        }
        let r = match self.binary_file.read_at(pos, n) {
            Ok(v) => Ok(v),
            Err(_) => Err(MetaFileError::IoError),
        };
        proof {
            assert(self.header_stream() == self.header_file.contents());
            assert(self.uses_separate_header_stream());
            assert(forall|y: u64| #[trigger] self.record_pos(y) == self.header_pos as int);
        }
        r
    }

    fn cursor_pos(&self) -> (r: u64) {
        self.pos
    }

    fn set_cursor_pos(&mut self, c: u64) {
        proof {
            assert(self.header_stream() == self.header_file.contents());
            assert(self.uses_separate_header_stream());
            assert(forall|y: u64| #[trigger] self.record_pos(y) == self.header_pos as int);
        }
        self.pos = c;
        proof {
            assert(self.header_stream() == self.header_file.contents());
            assert(self.uses_separate_header_stream());
            assert(forall|y: u64| #[trigger] self.record_pos(y) == self.header_pos as int);
        }
    }

    fn last_run_get(&self) -> (r: Option<LastRun>) {
        self.last
    }

    fn set_last_run_info(&mut self, lr: Option<LastRun>) {
        proof {
            assert(self.header_stream() == self.header_file.contents());
            assert(self.uses_separate_header_stream());
            assert(forall|y: u64| #[trigger] self.record_pos(y) == self.header_pos as int);
        }
        self.last = lr;
        proof {
            assert(self.header_stream() == self.header_file.contents());
            assert(self.uses_separate_header_stream());
            assert(forall|y: u64| #[trigger] self.record_pos(y) == self.header_pos as int);
        }
    }

    fn total_loaded_samples(&self) -> (r: u64) {
        self.header_storage.total_samples()
    }

    fn find_index(&self, byte: u64) -> (r: Option<usize>) {
        self.header_storage.lookup_index(byte)
    }

    fn find_sample_index(&self, g: u64) -> (r: Option<usize>) {
        self.header_storage.lookup_sample_index(g)
    }
}

} // verus!
