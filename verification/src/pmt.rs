//! Parser and encoder for the binary tag encoding used by header records.
//!
//! The wire format is big-endian with one leading type byte per record:
//! `0x0`/`0x1` booleans, `0x2` symbol (u16 length, then UTF-8 bytes), `0x3`
//! 32-bit integer, `0x4` double (held as its 8 IEEE 754 bytes), `0x6` null,
//! `0x7` pair (two nested records), `0x9` dictionary (a right-nested chain
//! `pair(symbol, value)` continued by another `0x9` and terminated by a null
//! byte), `0xb` unsigned 64-bit integer, and `0xc` tuple (u32 count, then
//! that many records). Any other leading byte is an unrecognized-tag error.
//!
//! [`spec_parse`] is the mathematical definition of the format; the
//! executable parser and encoder are proved against it.

use vstd::prelude::*;

use crate::source::{ByteSource, SourceError};

verus! {

/// Type byte of the boolean true record.
pub const TAG_TRUE: u8 = 0x0;

/// Type byte of the boolean false record.
pub const TAG_FALSE: u8 = 0x1;

/// Type byte of a symbol record.
pub const TAG_SYMBOL: u8 = 0x2;

/// Type byte of a 32-bit integer record.
pub const TAG_INT32: u8 = 0x3;

/// Type byte of a double record.
pub const TAG_DOUBLE: u8 = 0x4;

/// Type byte of a null record.
pub const TAG_NULL: u8 = 0x6;

/// Type byte of a pair record.
pub const TAG_PAIR: u8 = 0x7;

/// Type byte of a dictionary record.
pub const TAG_DICT: u8 = 0x9;

/// Type byte of an unsigned 64-bit integer record.
pub const TAG_UINT64: u8 = 0xb;

/// Type byte of a tuple record.
pub const TAG_TUPLE: u8 = 0xc;

/// One decoded value from the binary metadata encoding, immutable once
/// parsed.
///
/// A `Symbol` holds the UTF-8 bytes of its text; a `Double` holds the eight
/// big-endian wire bytes of an IEEE 754 double as a `u64` bit pattern, so
/// that the value travels through the library without floating-point
/// arithmetic. A `Dict` keeps its entries in parse order with unique keys.
#[derive(Debug, PartialEq)]
pub enum Tag {
    Bool(bool),
    Symbol(Vec<u8>),
    Int32(i32),
    Double(u64),
    Null,
    Pair(Box<Tag>, Box<Tag>),
    Dict(Vec<(Vec<u8>, Tag)>),
    UInt64(u64),
    Tuple(Vec<Tag>),
}

/// The mathematical shape of a [`Tag`]: the same tree over `Seq` instead of
/// `Vec`.
pub enum TagV {
    Bool(bool),
    Symbol(Seq<u8>),
    Int32(i32),
    Double(u64),
    Null,
    Pair(Box<TagV>, Box<TagV>),
    Dict(Seq<(Seq<u8>, TagV)>),
    UInt64(u64),
    Tuple(Seq<TagV>),
}

/// The mathematical shape of a tag: the recursive definition behind
/// `Tag::view`.
pub open spec fn tag_view(t: Tag) -> TagV
    decreases t, 0int,
{
    match t {
        Tag::Bool(b) => TagV::Bool(b),
        Tag::Symbol(s) => TagV::Symbol(s@),
        Tag::Int32(i) => TagV::Int32(i),
        Tag::Double(bits) => TagV::Double(bits),
        Tag::Null => TagV::Null,
        Tag::Pair(a, b) => TagV::Pair(Box::new(tag_view(*a)), Box::new(tag_view(*b))),
        Tag::Dict(es) => TagV::Dict(entries_view(es@)),
        Tag::UInt64(u) => TagV::UInt64(u),
        Tag::Tuple(ts) => TagV::Tuple(tags_view(ts@)),
    }
}

/// The views of a sequence of tags, in order.
pub open spec fn tags_view(ts: Seq<Tag>) -> Seq<TagV>
    decreases ts, 1int,
{
    if ts.len() == 0 {
        Seq::empty()
    } else {
        tags_view(ts.subrange(0, ts.len() - 1)).push(tag_view(ts[ts.len() - 1]))
    }
}

/// The views of a sequence of dictionary entries, in order.
pub open spec fn entries_view(es: Seq<(Vec<u8>, Tag)>) -> Seq<(Seq<u8>, TagV)>
    decreases es, 1int,
{
    if es.len() == 0 {
        Seq::empty()
    } else {
        entries_view(es.subrange(0, es.len() - 1)).push(
            (es[es.len() - 1].0@, tag_view(es[es.len() - 1].1)),
        )
    }
}

/// Pointwise description of `tags_view`.
pub proof fn lemma_tags_view(ts: Seq<Tag>)
    ensures
        tags_view(ts).len() == ts.len(),
        forall|i: int| 0 <= i < ts.len() ==> tags_view(ts)[i] == tag_view(ts[i]),
    decreases ts.len(),
{
    if ts.len() > 0 {
        lemma_tags_view(ts.subrange(0, ts.len() - 1));
    }
}

/// Pointwise description of `entries_view`.
pub proof fn lemma_entries_view(es: Seq<(Vec<u8>, Tag)>)
    ensures
        entries_view(es).len() == es.len(),
        forall|i: int|
            0 <= i < es.len() ==> entries_view(es)[i] == (es[i].0@, tag_view(es[i].1)),
    decreases es.len(),
{
    if es.len() > 0 {
        lemma_entries_view(es.subrange(0, es.len() - 1));
    }
}

impl View for Tag {
    type V = TagV;

    open spec fn view(&self) -> TagV {
        tag_view(*self)
    }
}

/// Copies a byte vector.
pub fn clone_bytes(v: &Vec<u8>) -> (r: Vec<u8>)
    ensures
        r@ == v@,
{
    let mut out: Vec<u8> = Vec::new();
    let mut i: usize = 0;
    while i < v.len()
        invariant
            i <= v.len(),
            out@ == v@.subrange(0, i as int),
        decreases v.len() - i,
    {
        out.push(v[i]);
        proof {
            assert(out@ =~= v@.subrange(0, i + 1));
        }
        i = i + 1;
    }
    proof {
        assert(out@ =~= v@);
    }
    out
}

/// Deep-copies the tags of `ts` from index `i` on into `out`.
fn clone_tags_from(ts: &Vec<Tag>, i: usize, out: &mut Vec<Tag>)
    requires
        i <= ts.len(),
        old(out)@.len() == i,
    ensures
        final(out)@.len() == ts@.len(),
        forall|j: int| 0 <= j < i ==> final(out)@[j] == old(out)@[j],
        forall|j: int| i <= j < ts@.len() ==> (#[trigger] final(out)@[j])@ == ts@[j]@,
    decreases ts, 0int, ts.len() - i,
{
    if i < ts.len() {
        let item = ts[i].clone();
        out.push(item);
        clone_tags_from(ts, i + 1, out);
    }
}

/// Deep-copies the dictionary entries of `es` from index `i` on into `out`.
fn clone_entries_from(es: &Vec<(Vec<u8>, Tag)>, i: usize, out: &mut Vec<(Vec<u8>, Tag)>)
    requires
        i <= es.len(),
        old(out)@.len() == i,
    ensures
        final(out)@.len() == es@.len(),
        forall|j: int| 0 <= j < i ==> final(out)@[j] == old(out)@[j],
        forall|j: int|
            i <= j < es@.len() ==> (#[trigger] final(out)@[j]).0@ == es@[j].0@
                && final(out)@[j].1@ == es@[j].1@,
    decreases es, 0int, es.len() - i,
{
    if i < es.len() {
        let key = clone_bytes(&es[i].0);
        let val = es[i].1.clone();
        out.push((key, val));
        clone_entries_from(es, i + 1, out);
    }
}

impl Clone for Tag {
    /// A deep copy with the same mathematical shape.
    fn clone(&self) -> (r: Tag)
        ensures
            r@ == self@,
        decreases self, 1int, 0int,
    {
        match self {
            Tag::Bool(b) => Tag::Bool(*b),
            Tag::Symbol(s) => Tag::Symbol(clone_bytes(s)),
            Tag::Int32(i) => Tag::Int32(*i),
            Tag::Double(bits) => Tag::Double(*bits),
            Tag::Null => Tag::Null,
            Tag::Pair(a, b) => Tag::Pair(Box::new((&**a).clone()), Box::new((&**b).clone())),
            Tag::Dict(es) => {
                let mut out: Vec<(Vec<u8>, Tag)> = Vec::new();
                clone_entries_from(es, 0, &mut out);
                proof {
                    lemma_entries_view(out@);
                    lemma_entries_view(es@);
                    assert(entries_view(out@) =~= entries_view(es@));
                }
                Tag::Dict(out)
            },
            Tag::UInt64(u) => Tag::UInt64(*u),
            Tag::Tuple(ts) => {
                let mut out: Vec<Tag> = Vec::new();
                clone_tags_from(ts, 0, &mut out);
                proof {
                    lemma_tags_view(out@);
                    lemma_tags_view(ts@);
                    assert(tags_view(out@) =~= tags_view(ts@));
                }
                Tag::Tuple(out)
            },
        }
    }
}

/// Why parsing failed.
#[derive(Clone, Copy, Debug, PartialEq, Eq, Structural)]
pub enum ParseError {
    /// The stream ended in the middle of a record.
    UnexpectedEOF,
    /// A dictionary entry did not follow the `dict(pair(name, value), ...)`
    /// structure.
    MalformedDict,
    /// The underlying source failed while reading.
    IoError,
    /// A symbol's bytes were not UTF-8 encoded.
    Utf8Error,
    /// The leading type byte of a record named no known kind.
    UnrecognizedTag,
}

/// Whether a byte sequence is valid UTF-8, as `std::str::from_utf8` decides
/// it; the result depends on the bytes alone.
pub uninterp spec fn is_utf8(s: Seq<u8>) -> bool;

/// Relies on std::str::from_utf8: returns `Ok` exactly on valid UTF-8.
#[verifier::external_body]
fn utf8_check(v: &Vec<u8>) -> (r: bool)
    ensures
        r == is_utf8(v@),
{
    std::str::from_utf8(v.as_slice()).is_ok()
}

/// The big-endian value of the `n` bytes of `s` starting at `pos`.
pub open spec fn be_val(s: Seq<u8>, pos: int, n: nat) -> int
    decreases n,
{
    if n == 0 {
        0
    } else {
        be_val(s, pos, (n - 1) as nat) * 256 + s[pos + n - 1]
    }
}

/// The big-endian value of `n` bytes is below `256^n`.
pub proof fn lemma_be_val_bounds(s: Seq<u8>, pos: int, n: nat)
    ensures
        0 <= be_val(s, pos, n) < vstd::arithmetic::power::pow(256, n),
    decreases n,
{
    reveal(vstd::arithmetic::power::pow);
    vstd::arithmetic::power::lemma_pow_positive(256, n);
    if n > 0 {
        lemma_be_val_bounds(s, pos, (n - 1) as nat);
    }
}

/// The signed 32-bit value whose two's-complement bit pattern is `x`.
pub open spec fn i32_of_u32_val(x: int) -> i32 {
    if x < 0x8000_0000 {
        x as i32
    } else {
        (x - 0x1_0000_0000) as i32
    }
}

/// Inserts a key into a dictionary entry list: replaces the value in place
/// if the key is present, else appends the entry.
pub open spec fn dict_insert(es: Seq<(Seq<u8>, TagV)>, key: Seq<u8>, v: TagV) -> Seq<
    (Seq<u8>, TagV),
>
    decreases es.len(),
{
    if es.len() == 0 {
        seq![(key, v)]
    } else if es[0].0 == key {
        seq![(key, v)] + es.drop_first()
    } else {
        seq![es[0]] + dict_insert(es.drop_first(), key, v)
    }
}

/// The outcome of parsing one record at a given position: the decoded value
/// and the position just past it, or the error.
pub enum SpecParse {
    Parsed(TagV, int),
    Error(ParseError),
}

/// Parses the record starting at `pos`: one leading type byte, then the
/// body. The whole-stream definition of the wire format.
pub open spec fn spec_parse(s: Seq<u8>, pos: int) -> SpecParse
    decreases s.len() - pos, 0int, 0int,
{
    if pos < 0 || pos >= s.len() {
        SpecParse::Error(ParseError::UnexpectedEOF)
    } else {
        spec_parse_tag(s, pos + 1, s[pos])
    }
}

/// Parses the body of a record whose type byte `kind` stood at `pos - 1`.
pub open spec fn spec_parse_tag(s: Seq<u8>, pos: int, kind: u8) -> SpecParse
    decreases s.len() - pos, 2int, 0int,
{
    if pos < 0 || pos > s.len() {
        SpecParse::Error(ParseError::UnexpectedEOF)
    } else if kind == TAG_TRUE {
        SpecParse::Parsed(TagV::Bool(true), pos)
    } else if kind == TAG_FALSE {
        SpecParse::Parsed(TagV::Bool(false), pos)
    } else if kind == TAG_SYMBOL {
        spec_parse_symbol(s, pos)
    } else if kind == TAG_INT32 {
        if pos + 4 <= s.len() {
            SpecParse::Parsed(TagV::Int32(i32_of_u32_val(be_val(s, pos, 4))), pos + 4)
        } else {
            SpecParse::Error(ParseError::UnexpectedEOF)
        }
    } else if kind == TAG_DOUBLE {
        if pos + 8 <= s.len() {
            SpecParse::Parsed(TagV::Double(be_val(s, pos, 8) as u64), pos + 8)
        } else {
            SpecParse::Error(ParseError::UnexpectedEOF)
        }
    } else if kind == TAG_NULL {
        SpecParse::Parsed(TagV::Null, pos)
    } else if kind == TAG_PAIR {
        spec_parse_pair(s, pos)
    } else if kind == TAG_DICT {
        spec_parse_dict_inner(s, pos, Seq::empty())
    } else if kind == TAG_UINT64 {
        if pos + 8 <= s.len() {
            SpecParse::Parsed(TagV::UInt64(be_val(s, pos, 8) as u64), pos + 8)
        } else {
            SpecParse::Error(ParseError::UnexpectedEOF)
        }
    } else if kind == TAG_TUPLE {
        if pos + 4 <= s.len() {
            spec_parse_tuple_items(s, pos + 4, be_val(s, pos, 4), Seq::empty())
        } else {
            SpecParse::Error(ParseError::UnexpectedEOF)
        }
    } else {
        SpecParse::Error(ParseError::UnrecognizedTag)
    }
}

/// Parses a symbol body: a u16 length, then that many UTF-8 bytes.
pub open spec fn spec_parse_symbol(s: Seq<u8>, pos: int) -> SpecParse {
    if pos + 2 > s.len() {
        SpecParse::Error(ParseError::UnexpectedEOF)
    } else {
        let n = be_val(s, pos, 2);
        if pos + 2 + n > s.len() {
            SpecParse::Error(ParseError::UnexpectedEOF)
        } else {
            let bytes = s.subrange(pos + 2, pos + 2 + n);
            if is_utf8(bytes) {
                SpecParse::Parsed(TagV::Symbol(bytes), pos + 2 + n)
            } else {
                SpecParse::Error(ParseError::Utf8Error)
            }
        }
    }
}

/// Parses two consecutive records starting at `pos`, forming a pair.
pub open spec fn spec_parse_pair(s: Seq<u8>, pos: int) -> SpecParse
    decreases s.len() - pos, 1int, 0int,
{
    match spec_parse(s, pos) {
        SpecParse::Error(e) => SpecParse::Error(e),
        SpecParse::Parsed(t1, p1) => {
            if !(pos < p1 <= s.len()) {
                SpecParse::Error(ParseError::UnexpectedEOF)
            } else {
                match spec_parse(s, p1) {
                    SpecParse::Error(e) => SpecParse::Error(e),
                    SpecParse::Parsed(t2, p2) => SpecParse::Parsed(
                        TagV::Pair(Box::new(t1), Box::new(t2)),
                        p2,
                    ),
                }
            }
        },
    }
}

/// Parses the chain of a dictionary after its leading `0x9` byte: a pair
/// byte, a symbol record and a value record, then either a null byte ending
/// the dictionary or another `0x9` continuing it.
pub open spec fn spec_parse_dict_inner(s: Seq<u8>, pos: int, acc: Seq<(Seq<u8>, TagV)>) -> SpecParse
    decreases s.len() - pos, 1int, 0int,
{
    if pos < 0 || pos >= s.len() {
        SpecParse::Error(ParseError::UnexpectedEOF)
    } else if s[pos] != TAG_PAIR {
        SpecParse::Error(ParseError::MalformedDict)
    } else {
        match spec_parse(s, pos + 1) {
            SpecParse::Error(e) => SpecParse::Error(e),
            SpecParse::Parsed(k, p1) => {
                if !(pos < p1 <= s.len()) {
                    SpecParse::Error(ParseError::UnexpectedEOF)
                } else {
                    match spec_parse(s, p1) {
                        SpecParse::Error(e) => SpecParse::Error(e),
                        SpecParse::Parsed(v, p2) => {
                            if !(p1 < p2 <= s.len()) {
                                SpecParse::Error(ParseError::UnexpectedEOF)
                            } else {
                                match k {
                                    TagV::Symbol(key) => {
                                        let acc2 = dict_insert(acc, key, v);
                                        if p2 >= s.len() {
                                            SpecParse::Error(ParseError::UnexpectedEOF)
                                        } else if s[p2] == TAG_NULL {
                                            SpecParse::Parsed(TagV::Dict(acc2), p2 + 1)
                                        } else if s[p2] == TAG_DICT {
                                            spec_parse_dict_inner(s, p2 + 1, acc2)
                                        } else {
                                            SpecParse::Error(ParseError::MalformedDict)
                                        }
                                    },
                                    _ => SpecParse::Error(ParseError::MalformedDict),
                                }
                            }
                        },
                    }
                }
            },
        }
    }
}

/// Parses `n` consecutive records starting at `pos`, the items of a tuple.
pub open spec fn spec_parse_tuple_items(s: Seq<u8>, pos: int, n: int, acc: Seq<TagV>) -> SpecParse
    decreases s.len() - pos, 1int, n,
{
    if n <= 0 {
        SpecParse::Parsed(TagV::Tuple(acc), pos)
    } else {
        match spec_parse(s, pos) {
            SpecParse::Error(e) => SpecParse::Error(e),
            SpecParse::Parsed(t, p1) => {
                if !(pos < p1 <= s.len()) {
                    SpecParse::Error(ParseError::UnexpectedEOF)
                } else {
                    spec_parse_tuple_items(s, p1, n - 1, acc.push(t))
                }
            },
        }
    }
}

/// Byte-for-byte equality of two vectors.
pub fn bytes_eq(a: &Vec<u8>, b: &Vec<u8>) -> (r: bool)
    ensures
        r == (a@ == b@),
{
    if a.len() != b.len() {
        return false;
    }
    let mut i: usize = 0;
    while i < a.len()
        invariant
            i <= a.len(),
            a.len() == b.len(),
            forall|j: int| 0 <= j < i ==> a@[j] == b@[j],
        decreases a.len() - i,
    {
        if a[i] != b[i] {
            return false;
        }
        i = i + 1;
    }
    proof {
        assert(a@ =~= b@);
    }
    true
}

/// When the key is absent, inserting appends the entry.
proof fn lemma_dict_insert_append(es: Seq<(Seq<u8>, TagV)>, key: Seq<u8>, v: TagV)
    requires
        forall|j: int| 0 <= j < es.len() ==> es[j].0 != key,
    ensures
        dict_insert(es, key, v) == es.push((key, v)),
    decreases es.len(),
{
    if es.len() == 0 {
        assert(dict_insert(es, key, v) =~= es.push((key, v)));
    } else {
        assert(es.drop_first()[0] == es[1] || es.len() == 1);
        assert(forall|j: int| 0 <= j < es.drop_first().len() ==> es.drop_first()[j] == es[j + 1]);
        lemma_dict_insert_append(es.drop_first(), key, v);
        assert(dict_insert(es, key, v) =~= es.push((key, v)));
    }
}

/// When the key is present, inserting replaces its first entry in place.
proof fn lemma_dict_insert_replace(es: Seq<(Seq<u8>, TagV)>, key: Seq<u8>, v: TagV, i: int)
    requires
        0 <= i < es.len(),
        es[i].0 == key,
        forall|j: int| 0 <= j < i ==> es[j].0 != key,
    ensures
        dict_insert(es, key, v) == es.update(i, (key, v)),
    decreases es.len(),
{
    if i == 0 {
        assert(dict_insert(es, key, v) =~= es.update(0, (key, v)));
    } else {
        assert(forall|j: int| 0 <= j < es.drop_first().len() ==> es.drop_first()[j] == es[j + 1]);
        lemma_dict_insert_replace(es.drop_first(), key, v, i - 1);
        assert(dict_insert(es, key, v) =~= es.update(i, (key, v)));
    }
}

/// Inserts a key into the entry vector of a dictionary under construction:
/// replaces the entry in place when the key is already present, else appends.
fn dict_vec_insert(es: &mut Vec<(Vec<u8>, Tag)>, key: Vec<u8>, v: Tag)
    ensures
        entries_view(final(es)@) == dict_insert(entries_view(old(es)@), key@, v@),
{
    proof {
        lemma_entries_view(es@);
    }
    let mut i: usize = 0;
    while i < es.len()
        invariant
            i <= es.len(),
            es@ == old(es)@,
            forall|j: int| 0 <= j < i ==> es@[j].0@ != key@,
        decreases es.len() - i,
    {
        if bytes_eq(&es[i].0, &key) {
            proof {
                lemma_entries_view(es@);
                lemma_dict_insert_replace(entries_view(es@), key@, v@, i as int);
            }
            let ghost pre = es@;
            es.set(i, (key, v));
            proof {
                lemma_entries_view(es@);
                lemma_entries_view(pre);
                assert(entries_view(es@) =~= dict_insert(entries_view(pre), key@, v@));
            }
            return ;
        }
        i = i + 1;
    }
    proof {
        lemma_entries_view(es@);
        lemma_dict_insert_append(entries_view(es@), key@, v@);
    }
    let ghost pre = es@;
    es.push((key, v));
    proof {
        lemma_entries_view(es@);
        lemma_entries_view(pre);
        assert(entries_view(es@) =~= dict_insert(entries_view(pre), key@, v@));
    }
}

/// A successfully parsed record consumes at least its type byte and ends
/// within the stream.
pub proof fn lemma_parse_advances(s: Seq<u8>, pos: int)
    ensures
        spec_parse(s, pos) matches SpecParse::Parsed(t, end) ==> pos < end <= s.len(),
    decreases s.len() - pos, 0int, 0int,
{
    if 0 <= pos < s.len() {
        lemma_parse_tag_advances(s, pos + 1, s[pos]);
    }
}

/// A successfully parsed record body ends at or after its start, within the
/// stream.
proof fn lemma_parse_tag_advances(s: Seq<u8>, pos: int, kind: u8)
    ensures
        spec_parse_tag(s, pos, kind) matches SpecParse::Parsed(t, end) ==> pos <= end
            <= s.len(),
    decreases s.len() - pos, 2int, 0int,
{
    if 0 <= pos <= s.len() {
        if kind == TAG_SYMBOL {
            lemma_be_val_bounds(s, pos, 2);
        } else if kind == TAG_PAIR {
            lemma_parse_pair_advances(s, pos);
        } else if kind == TAG_DICT {
            lemma_parse_dict_inner_advances(s, pos, Seq::empty());
        } else if kind == TAG_TUPLE {
            if pos + 4 <= s.len() {
                lemma_parse_tuple_items_advances(s, pos + 4, be_val(s, pos, 4), Seq::empty());
            }
        }
    }
}

/// A successfully parsed pair body ends past its start, within the stream.
proof fn lemma_parse_pair_advances(s: Seq<u8>, pos: int)
    ensures
        spec_parse_pair(s, pos) matches SpecParse::Parsed(t, end) ==> pos < end <= s.len(),
    decreases s.len() - pos, 1int, 0int,
{
    lemma_parse_advances(s, pos);
    match spec_parse(s, pos) {
        SpecParse::Parsed(t1, p1) => {
            if pos < p1 <= s.len() {
                lemma_parse_advances(s, p1);
            }
        },
        SpecParse::Error(e) => {},
    }
}

/// A successfully parsed dictionary chain ends past its start, within the
/// stream.
proof fn lemma_parse_dict_inner_advances(s: Seq<u8>, pos: int, acc: Seq<(Seq<u8>, TagV)>)
    ensures
        spec_parse_dict_inner(s, pos, acc) matches SpecParse::Parsed(t, end) ==> pos < end
            <= s.len(),
    decreases s.len() - pos, 1int, 0int,
{
    if 0 <= pos < s.len() && s[pos] == TAG_PAIR {
        lemma_parse_advances(s, pos + 1);
        match spec_parse(s, pos + 1) {
            SpecParse::Parsed(k, p1) => {
                if pos < p1 <= s.len() {
                    lemma_parse_advances(s, p1);
                    match spec_parse(s, p1) {
                        SpecParse::Parsed(v, p2) => {
                            if p1 < p2 <= s.len() && k is Symbol && p2 < s.len() && s[p2]
                                == TAG_DICT {
                                lemma_parse_dict_inner_advances(
                                    s,
                                    p2 + 1,
                                    dict_insert(acc, k->Symbol_0, v),
                                );
                            }
                        },
                        SpecParse::Error(e) => {},
                    }
                }
            },
            SpecParse::Error(e) => {},
        }
    }
}

/// A successfully parsed run of tuple items ends at or after its start,
/// within the stream.
proof fn lemma_parse_tuple_items_advances(s: Seq<u8>, pos: int, n: int, acc: Seq<TagV>)
    requires
        0 <= pos <= s.len(),
    ensures
        spec_parse_tuple_items(s, pos, n, acc) matches SpecParse::Parsed(t, end) ==> pos <= end
            <= s.len(),
    decreases s.len() - pos, 1int, n,
{
    if n > 0 {
        lemma_parse_advances(s, pos);
        match spec_parse(s, pos) {
            SpecParse::Parsed(t, p1) => {
                if pos < p1 <= s.len() {
                    lemma_parse_tuple_items_advances(s, p1, n - 1, acc.push(t));
                }
            },
            SpecParse::Error(e) => {},
        }
    }
}

/// Reads the single byte at `pos`; a clean end of stream is
/// `UnexpectedEOF`.
pub fn expect_byte<S: ByteSource>(src: &mut S, pos: u64) -> (r: Result<u8, ParseError>)
    ensures
        final(src).contents() == old(src).contents(),
        r matches Ok(b) ==> pos < old(src).contents().len() && b == old(src).contents()[pos as int],
        r matches Err(e) ==> e is IoError || (e is UnexpectedEOF && pos >= old(
            src,
        ).contents().len()),
{
    match src.read_at(pos, 1) {
        Ok(v) => Ok(v[0]),
        Err(SourceError::Eof) => Err(ParseError::UnexpectedEOF),
        Err(SourceError::Io) => Err(ParseError::IoError),
    }
}

/// Reads two bytes at `pos` as a big-endian u16.
fn read_be_u16<S: ByteSource>(src: &mut S, pos: u64) -> (r: Result<u16, ParseError>)
    ensures
        final(src).contents() == old(src).contents(),
        r matches Ok(x) ==> pos + 2 <= old(src).contents().len() && x == be_val(
            old(src).contents(),
            pos as int,
            2,
        ),
        r matches Err(e) ==> e is IoError || (e is UnexpectedEOF && pos + 2 > old(
            src,
        ).contents().len()),
{
    let ghost s = old(src).contents();
    match src.read_at(pos, 2) {
        Ok(v) => {
            let x: u16 = (v[0] as u16) * 0x100 + (v[1] as u16);
            proof {
                reveal_with_fuel(be_val, 3);
                assert(v@[0] == s[pos as int] && v@[1] == s[pos + 1]);
            }
            Ok(x)
        },
        Err(SourceError::Eof) => Err(ParseError::UnexpectedEOF),
        Err(SourceError::Io) => Err(ParseError::IoError),
    }
}

/// Reads four bytes at `pos` as a big-endian u32.
fn read_be_u32<S: ByteSource>(src: &mut S, pos: u64) -> (r: Result<u32, ParseError>)
    ensures
        final(src).contents() == old(src).contents(),
        r matches Ok(x) ==> pos + 4 <= old(src).contents().len() && x == be_val(
            old(src).contents(),
            pos as int,
            4,
        ),
        r matches Err(e) ==> e is IoError || (e is UnexpectedEOF && pos + 4 > old(
            src,
        ).contents().len()),
{
    let ghost s = old(src).contents();
    match src.read_at(pos, 4) {
        Ok(v) => {
            let x: u32 = (v[0] as u32) * 0x100_0000 + (v[1] as u32) * 0x1_0000 + (v[2] as u32)
                * 0x100 + (v[3] as u32);
            proof {
                reveal_with_fuel(be_val, 5);
                assert(forall|i: int| 0 <= i < 4 ==> v@[i] == s[pos + i]);
            }
            Ok(x)
        },
        Err(SourceError::Eof) => Err(ParseError::UnexpectedEOF),
        Err(SourceError::Io) => Err(ParseError::IoError),
    }
}

/// Reads eight bytes at `pos` as a big-endian u64.
fn read_be_u64<S: ByteSource>(src: &mut S, pos: u64) -> (r: Result<u64, ParseError>)
    ensures
        final(src).contents() == old(src).contents(),
        r matches Ok(x) ==> pos + 8 <= old(src).contents().len() && x == be_val(
            old(src).contents(),
            pos as int,
            8,
        ),
        r matches Err(e) ==> e is IoError || (e is UnexpectedEOF && pos + 8 > old(
            src,
        ).contents().len()),
{
    let ghost s = old(src).contents();
    match src.read_at(pos, 8) {
        Ok(v) => {
            let x: u64 = (v[0] as u64) * 0x100_0000_0000_0000 + (v[1] as u64) * 0x1_0000_0000_0000
                + (v[2] as u64) * 0x100_0000_0000 + (v[3] as u64) * 0x1_0000_0000 + (v[4] as u64)
                * 0x100_0000 + (v[5] as u64) * 0x1_0000 + (v[6] as u64) * 0x100 + (v[7] as u64);
            proof {
                reveal_with_fuel(be_val, 9);
                assert(forall|i: int| 0 <= i < 8 ==> v@[i] == s[pos + i]);
            }
            Ok(x)
        },
        Err(SourceError::Eof) => Err(ParseError::UnexpectedEOF),
        Err(SourceError::Io) => Err(ParseError::IoError),
    }
}

/// Parses the record starting at `pos`. The source must be positioned at
/// the start of a record; the result carries the position just past it.
pub fn parse<S: ByteSource>(src: &mut S, pos: u64) -> (r: Result<(Tag, u64), ParseError>)
    ensures
        final(src).contents() == old(src).contents(),
        r matches Ok(p) ==> spec_parse(old(src).contents(), pos as int) == SpecParse::Parsed(
            p.0@,
            p.1 as int,
        ) && pos < p.1 <= old(src).contents().len(),
        r matches Err(e) ==> e is IoError || spec_parse(old(src).contents(), pos as int)
            == SpecParse::Error(e),
    decreases src.contents().len() - pos, 0int, 0int,
{
    let ghost s = src.contents();
    let b = expect_byte(src, pos)?;
    proof {
        src.contents_len_bounded();
        lemma_parse_advances(s, pos as int);
    }
    parse_tag(src, b, pos + 1)
}

/// Parses the body of a record whose type byte `kind` stood just before
/// `pos`.
fn parse_tag<S: ByteSource>(src: &mut S, kind: u8, pos: u64) -> (r: Result<(Tag, u64), ParseError>)
    requires
        pos <= old(src).contents().len(),
    ensures
        final(src).contents() == old(src).contents(),
        r matches Ok(p) ==> spec_parse_tag(old(src).contents(), pos as int, kind)
            == SpecParse::Parsed(p.0@, p.1 as int) && pos <= p.1 <= old(src).contents().len(),
        r matches Err(e) ==> e is IoError || spec_parse_tag(old(src).contents(), pos as int, kind)
            == SpecParse::Error(e),
    decreases src.contents().len() - pos, 2int, 0int,
{
    let ghost s = src.contents();
    proof {
        src.contents_len_bounded();
    }
    if kind == TAG_TRUE {
        Ok((Tag::Bool(true), pos))
    } else if kind == TAG_FALSE {
        Ok((Tag::Bool(false), pos))
    } else if kind == TAG_SYMBOL {
        parse_symbol(src, pos)
    } else if kind == TAG_INT32 {
        let x = read_be_u32(src, pos)?;
        let v: i32 = if x < 0x8000_0000 {
            x as i32
        } else {
            ((x as i64) - 0x1_0000_0000i64) as i32
        };
        proof {
            lemma_be_val_bounds(s, pos as int, 4);
            reveal(vstd::arithmetic::power::pow);
        }
        Ok((Tag::Int32(v), pos + 4))
    } else if kind == TAG_DOUBLE {
        let x = read_be_u64(src, pos)?;
        proof {
            lemma_be_val_bounds(s, pos as int, 8);
            reveal(vstd::arithmetic::power::pow);
        }
        Ok((Tag::Double(x), pos + 8))
    } else if kind == TAG_NULL {
        Ok((Tag::Null, pos))
    } else if kind == TAG_PAIR {
        parse_pair(src, pos)
    } else if kind == TAG_DICT {
        let mut entries: Vec<(Vec<u8>, Tag)> = Vec::new();
        let end = parse_dict_inner(src, pos, &mut entries)?;
        proof {
            assert(entries_view(Seq::<(Vec<u8>, Tag)>::empty()) =~= Seq::<
                (Seq<u8>, TagV),
            >::empty());
        }
        Ok((Tag::Dict(entries), end))
    } else if kind == TAG_UINT64 {
        let x = read_be_u64(src, pos)?;
        proof {
            lemma_be_val_bounds(s, pos as int, 8);
            reveal(vstd::arithmetic::power::pow);
        }
        Ok((Tag::UInt64(x), pos + 8))
    } else if kind == TAG_TUPLE {
        let n = read_be_u32(src, pos)?;
        proof {
            lemma_be_val_bounds(s, pos as int, 4);
            reveal(vstd::arithmetic::power::pow);
        }
        let mut items: Vec<Tag> = Vec::new();
        let end = parse_tuple_items(src, pos + 4, n, &mut items)?;
        proof {
            assert(tags_view(Seq::<Tag>::empty()) =~= Seq::<TagV>::empty());
        }
        Ok((Tag::Tuple(items), end))
    } else {
        Err(ParseError::UnrecognizedTag)
    }
}

/// Parses a symbol body: length, bytes, and the UTF-8 check.
fn parse_symbol<S: ByteSource>(src: &mut S, pos: u64) -> (r: Result<(Tag, u64), ParseError>)
    requires
        pos <= old(src).contents().len(),
    ensures
        final(src).contents() == old(src).contents(),
        r matches Ok(p) ==> spec_parse_symbol(old(src).contents(), pos as int)
            == SpecParse::Parsed(p.0@, p.1 as int) && pos <= p.1 <= old(src).contents().len(),
        r matches Err(e) ==> e is IoError || spec_parse_symbol(old(src).contents(), pos as int)
            == SpecParse::Error(e),
{
    let ghost s = src.contents();
    let n = read_be_u16(src, pos)?;
    proof {
        src.contents_len_bounded();
        lemma_be_val_bounds(s, pos as int, 2);
        reveal(vstd::arithmetic::power::pow);
    }
    let bytes = match src.read_at(pos + 2, n as usize) {
        Ok(v) => v,
        Err(SourceError::Eof) => {
            return Err(ParseError::UnexpectedEOF);
        },
        Err(SourceError::Io) => {
            return Err(ParseError::IoError);
        },
    };
    if utf8_check(&bytes) {
        Ok((Tag::Symbol(bytes), pos + 2 + (n as u64)))
    } else {
        Err(ParseError::Utf8Error)
    }
}

/// Parses two consecutive records starting at `pos`, forming a pair.
fn parse_pair<S: ByteSource>(src: &mut S, pos: u64) -> (r: Result<(Tag, u64), ParseError>)
    requires
        pos <= old(src).contents().len(),
    ensures
        final(src).contents() == old(src).contents(),
        r matches Ok(p) ==> spec_parse_pair(old(src).contents(), pos as int) == SpecParse::Parsed(
            p.0@,
            p.1 as int,
        ) && pos <= p.1 <= old(src).contents().len(),
        r matches Err(e) ==> e is IoError || spec_parse_pair(old(src).contents(), pos as int)
            == SpecParse::Error(e),
    decreases src.contents().len() - pos, 1int, 0int,
{
    let ghost s = src.contents();
    let first = parse(src, pos)?;
    let second = parse(src, first.1)?;
    Ok((Tag::Pair(Box::new(first.0), Box::new(second.0)), second.1))
}

/// Parses a dictionary chain after its leading type byte, filling `tgt`
/// with the entries in parse order.
fn parse_dict_inner<S: ByteSource>(
    src: &mut S,
    pos: u64,
    tgt: &mut Vec<(Vec<u8>, Tag)>,
) -> (r: Result<u64, ParseError>)
    requires
        pos <= old(src).contents().len(),
    ensures
        final(src).contents() == old(src).contents(),
        r matches Ok(end) ==> spec_parse_dict_inner(
            old(src).contents(),
            pos as int,
            entries_view(old(tgt)@),
        ) == SpecParse::Parsed(TagV::Dict(entries_view(final(tgt)@)), end as int) && pos <= end
            <= old(src).contents().len(),
        r matches Err(e) ==> e is IoError || spec_parse_dict_inner(
            old(src).contents(),
            pos as int,
            entries_view(old(tgt)@),
        ) == SpecParse::Error(e),
    decreases src.contents().len() - pos, 1int, 0int,
{
    let ghost s = src.contents();
    let b = expect_byte(src, pos)?;
    if b != TAG_PAIR {
        return Err(ParseError::MalformedDict);
    }
    proof {
        src.contents_len_bounded();
    }
    let key_tag = parse(src, pos + 1)?;
    let val_tag = parse(src, key_tag.1)?;
    let p2 = val_tag.1;
    match key_tag.0 {
        Tag::Symbol(key) => {
            dict_vec_insert(tgt, key, val_tag.0);
            let nb = expect_byte(src, p2)?;
            if nb == TAG_NULL {
                Ok(p2 + 1)
            } else if nb == TAG_DICT {
                parse_dict_inner(src, p2 + 1, tgt)
            } else {
                Err(ParseError::MalformedDict)
            }
        },
        _ => Err(ParseError::MalformedDict),
    }
}

/// Parses `n` consecutive records, the items of a tuple, appending each to
/// `items`.
fn parse_tuple_items<S: ByteSource>(
    src: &mut S,
    pos: u64,
    n: u32,
    items: &mut Vec<Tag>,
) -> (r: Result<u64, ParseError>)
    requires
        pos <= old(src).contents().len(),
    ensures
        final(src).contents() == old(src).contents(),
        r matches Ok(end) ==> spec_parse_tuple_items(
            old(src).contents(),
            pos as int,
            n as int,
            tags_view(old(items)@),
        ) == SpecParse::Parsed(TagV::Tuple(tags_view(final(items)@)), end as int) && pos <= end
            <= old(src).contents().len(),
        r matches Err(e) ==> e is IoError || spec_parse_tuple_items(
            old(src).contents(),
            pos as int,
            n as int,
            tags_view(old(items)@),
        ) == SpecParse::Error(e),
    decreases src.contents().len() - pos, 1int, n,
{
    if n == 0 {
        return Ok(pos);
    }
    let ghost s = src.contents();
    let item = parse(src, pos)?;
    let ghost pre = items@;
    items.push(item.0);
    proof {
        assert(items@.subrange(0, items@.len() - 1) =~= pre);
        assert(tags_view(items@) == tags_view(pre).push(item.0@));
    }
    parse_tuple_items(src, item.1, n - 1, items)
}

/// Tries to read a record at `pos`, yielding nothing instead of an error
/// when the stream ends cleanly at its very first byte. A truncation after
/// that first byte is still an error.
pub fn parse_maybe_eof<S: ByteSource>(src: &mut S, pos: u64) -> (r: Result<
    Option<(Tag, u64)>,
    ParseError,
>)
    ensures
        final(src).contents() == old(src).contents(),
        r matches Ok(Some(q)) ==> spec_parse(old(src).contents(), pos as int) == SpecParse::Parsed(
            q.0@,
            q.1 as int,
        ) && pos < q.1 <= old(src).contents().len(),
        r matches Ok(None::<(Tag, u64)>) ==> pos >= old(src).contents().len(),
        pos >= old(src).contents().len() ==> r matches Ok(None::<(Tag, u64)>) || (r matches Err(e)
            && e is IoError),
        r matches Err(e) ==> e is IoError || spec_parse(old(src).contents(), pos as int)
            == SpecParse::Error(e),
{
    let ghost s = src.contents();
    let b = match expect_byte(src, pos) {
        Err(e) => {
            if e == ParseError::UnexpectedEOF {
                return Ok(None);
            } else {
                return Err(e);
            }
        },
        Ok(v) => v,
    };
    proof {
        src.contents_len_bounded();
        lemma_parse_advances(s, pos as int);
    }
    match parse_tag(src, b, pos + 1) {
        Err(e) => Err(e),
        Ok(v) => Ok(Some(v)),
    }
}

/// The two big-endian bytes of a u16.
pub open spec fn be2(v: u16) -> Seq<u8> {
    seq![(v / 0x100) as u8, (v % 0x100) as u8]
}

/// The four big-endian bytes of a u32.
pub open spec fn be4(v: u32) -> Seq<u8> {
    seq![
        (v / 0x100_0000) as u8,
        ((v / 0x1_0000) % 0x100) as u8,
        ((v / 0x100) % 0x100) as u8,
        (v % 0x100) as u8,
    ]
}

/// The eight big-endian bytes of a u64.
pub open spec fn be8(v: u64) -> Seq<u8> {
    seq![
        (v / 0x100_0000_0000_0000) as u8,
        ((v / 0x1_0000_0000_0000) % 0x100) as u8,
        ((v / 0x100_0000_0000) % 0x100) as u8,
        ((v / 0x1_0000_0000) % 0x100) as u8,
        ((v / 0x100_0000) % 0x100) as u8,
        ((v / 0x1_0000) % 0x100) as u8,
        ((v / 0x100) % 0x100) as u8,
        (v % 0x100) as u8,
    ]
}

/// The unsigned 32-bit two's-complement bit pattern of a signed value.
pub open spec fn u32_of_i32(i: i32) -> u32 {
    if i >= 0 {
        i as u32
    } else {
        (i + 0x1_0000_0000) as u32
    }
}

/// Whether a tag fits the wire format's size fields: symbol texts of at
/// most `u16::MAX` bytes, tuples of at most `u32::MAX` items, and no empty
/// dictionaries (the chain encoding has no empty form).
pub open spec fn encodable(t: TagV) -> bool
    decreases t, 0int,
{
    match t {
        TagV::Symbol(s) => s.len() <= u16::MAX,
        TagV::Pair(a, b) => encodable(*a) && encodable(*b),
        TagV::Dict(es) => 1 <= es.len() && encodable_entries(es),
        TagV::Tuple(ts) => ts.len() <= u32::MAX && encodable_items(ts),
        _ => true,
    }
}

/// Whether every entry of a dictionary is encodable, key and value.
pub open spec fn encodable_entries(es: Seq<(Seq<u8>, TagV)>) -> bool
    decreases es, 1int,
{
    forall|i: int| 0 <= i < es.len() ==> es[i].0.len() <= u16::MAX && encodable(#[trigger] es[i].1)
}

/// Whether every item of a tuple is encodable.
pub open spec fn encodable_items(ts: Seq<TagV>) -> bool
    decreases ts, 1int,
{
    forall|i: int| 0 <= i < ts.len() ==> encodable(#[trigger] ts[i])
}

/// No two entries share a key.
pub open spec fn unique_keys(es: Seq<(Seq<u8>, TagV)>) -> bool {
    forall|i: int, j: int| 0 <= i < j < es.len() ==> es[i].0 != es[j].0
}

/// A supported tag value: encodable, with UTF-8 symbol texts and dictionary
/// keys, and with unique keys in every dictionary. Exactly these values
/// survive an encode-parse round trip unchanged.
pub open spec fn tag_wf(t: TagV) -> bool
    decreases t, 0int,
{
    match t {
        TagV::Symbol(s) => s.len() <= u16::MAX && is_utf8(s),
        TagV::Pair(a, b) => tag_wf(*a) && tag_wf(*b),
        TagV::Dict(es) => 1 <= es.len() && unique_keys(es) && wf_entries(es),
        TagV::Tuple(ts) => ts.len() <= u32::MAX && wf_items(ts),
        _ => true,
    }
}

/// Every entry of a dictionary is well formed: a UTF-8 key that fits the
/// length field, and a well-formed value.
pub open spec fn wf_entries(es: Seq<(Seq<u8>, TagV)>) -> bool
    decreases es, 1int,
{
    forall|i: int|
        0 <= i < es.len() ==> es[i].0.len() <= u16::MAX && is_utf8(#[trigger] es[i].0) && tag_wf(
            es[i].1,
        )
}

/// Every item of a tuple is well formed.
pub open spec fn wf_items(ts: Seq<TagV>) -> bool
    decreases ts, 1int,
{
    forall|i: int| 0 <= i < ts.len() ==> tag_wf(#[trigger] ts[i])
}

/// The wire bytes of one record.
pub open spec fn spec_encode(t: TagV) -> Seq<u8>
    decreases t, 0int,
{
    match t {
        TagV::Bool(b) => if b {
            seq![TAG_TRUE]
        } else {
            seq![TAG_FALSE]
        },
        TagV::Symbol(s) => seq![TAG_SYMBOL] + be2(s.len() as u16) + s,
        TagV::Int32(i) => seq![TAG_INT32] + be4(u32_of_i32(i)),
        TagV::Double(bits) => seq![TAG_DOUBLE] + be8(bits),
        TagV::Null => seq![TAG_NULL],
        TagV::Pair(a, b) => seq![TAG_PAIR] + spec_encode(*a) + spec_encode(*b),
        TagV::Dict(es) => seq![TAG_DICT] + spec_encode_dict_entries(es),
        TagV::UInt64(u) => seq![TAG_UINT64] + be8(u),
        TagV::Tuple(ts) => seq![TAG_TUPLE] + be4(ts.len() as u32) + spec_encode_items(ts),
    }
}

/// The wire bytes of a dictionary chain: each entry as a pair byte, a
/// symbol record and a value record, the entries joined by `0x9` bytes and
/// the chain closed by a null byte.
pub open spec fn spec_encode_dict_entries(es: Seq<(Seq<u8>, TagV)>) -> Seq<u8>
    decreases es, 1int, 0int,
{
    if es.len() == 0 {
        seq![TAG_NULL]
    } else {
        seq![TAG_PAIR, TAG_SYMBOL] + be2(es[0].0.len() as u16) + es[0].0 + spec_encode(es[0].1) + (
        if es.len() == 1 {
            seq![TAG_NULL]
        } else {
            seq![TAG_DICT] + spec_encode_dict_entries(es.drop_first())
        })
    }
}

/// The wire bytes of consecutive tuple items.
pub open spec fn spec_encode_items(ts: Seq<TagV>) -> Seq<u8>
    decreases ts, 1int,
{
    if ts.len() == 0 {
        Seq::empty()
    } else {
        spec_encode(ts[0]) + spec_encode_items(ts.drop_first())
    }
}

/// Appends the two big-endian bytes of a u16.
fn push_be2(out: &mut Vec<u8>, v: u16)
    ensures
        final(out)@ == old(out)@ + be2(v),
{
    out.push((v / 0x100) as u8);
    out.push((v % 0x100) as u8);
    proof {
        assert(out@ =~= old(out)@ + be2(v));
    }
}

/// Appends the four big-endian bytes of a u32.
fn push_be4(out: &mut Vec<u8>, v: u32)
    ensures
        final(out)@ == old(out)@ + be4(v),
{
    out.push((v / 0x100_0000) as u8);
    out.push(((v / 0x1_0000) % 0x100) as u8);
    out.push(((v / 0x100) % 0x100) as u8);
    out.push((v % 0x100) as u8);
    proof {
        assert(out@ =~= old(out)@ + be4(v));
    }
}

/// Appends the eight big-endian bytes of a u64.
fn push_be8(out: &mut Vec<u8>, v: u64)
    ensures
        final(out)@ == old(out)@ + be8(v),
{
    out.push((v / 0x100_0000_0000_0000) as u8);
    out.push(((v / 0x1_0000_0000_0000) % 0x100) as u8);
    out.push(((v / 0x100_0000_0000) % 0x100) as u8);
    out.push(((v / 0x1_0000_0000) % 0x100) as u8);
    out.push(((v / 0x100_0000) % 0x100) as u8);
    out.push(((v / 0x1_0000) % 0x100) as u8);
    out.push(((v / 0x100) % 0x100) as u8);
    out.push((v % 0x100) as u8);
    proof {
        assert(out@ =~= old(out)@ + be8(v));
    }
}

/// Appends a byte vector to another.
fn push_bytes(out: &mut Vec<u8>, src: &Vec<u8>)
    ensures
        final(out)@ == old(out)@ + src@,
{
    let mut i: usize = 0;
    while i < src.len()
        invariant
            i <= src.len(),
            out@ == old(out)@ + src@.subrange(0, i as int),
        decreases src.len() - i,
    {
        out.push(src[i]);
        proof {
            assert(out@ =~= old(out)@ + src@.subrange(0, i + 1));
        }
        i = i + 1;
    }
    proof {
        assert(src@.subrange(0, src@.len() as int) =~= src@);
    }
}

/// Appends the wire bytes of one record to `out`.
///
/// There is no write path for sample data; this encoder exists so that
/// header records can be produced and so that parsing can be exercised
/// against known values.
pub fn encode(t: &Tag, out: &mut Vec<u8>)
    requires
        encodable(t@),
    ensures
        final(out)@ == old(out)@ + spec_encode(t@),
    decreases t, 0int, 0int,
{
    match t {
        Tag::Bool(b) => {
            out.push(if *b { TAG_TRUE } else { TAG_FALSE });
            proof {
                assert(out@ =~= old(out)@ + spec_encode(t@));
            }
        },
        Tag::Symbol(s) => {
            out.push(TAG_SYMBOL);
            push_be2(out, s.len() as u16);
            push_bytes(out, s);
            proof {
                assert(out@ =~= old(out)@ + spec_encode(t@));
            }
        },
        Tag::Int32(i) => {
            out.push(TAG_INT32);
            let bits: u32 = if *i >= 0 {
                *i as u32
            } else {
                ((*i as i64) + 0x1_0000_0000i64) as u32
            };
            push_be4(out, bits);
            proof {
                assert(out@ =~= old(out)@ + spec_encode(t@));
            }
        },
        Tag::Double(bits) => {
            out.push(TAG_DOUBLE);
            push_be8(out, *bits);
            proof {
                assert(out@ =~= old(out)@ + spec_encode(t@));
            }
        },
        Tag::Null => {
            out.push(TAG_NULL);
            proof {
                assert(out@ =~= old(out)@ + spec_encode(t@));
            }
        },
        Tag::Pair(a, b) => {
            out.push(TAG_PAIR);
            encode(&**a, out);
            encode(&**b, out);
            proof {
                assert(out@ =~= old(out)@ + spec_encode(t@));
            }
        },
        Tag::Dict(es) => {
            out.push(TAG_DICT);
            encode_dict_entries(es, 0, out);
            proof {
                assert(entries_view(es@).skip(0) =~= entries_view(es@));
                assert(out@ =~= old(out)@ + spec_encode(t@));
            }
        },
        Tag::UInt64(u) => {
            out.push(TAG_UINT64);
            push_be8(out, *u);
            proof {
                assert(out@ =~= old(out)@ + spec_encode(t@));
            }
        },
        Tag::Tuple(ts) => {
            out.push(TAG_TUPLE);
            proof {
                lemma_tags_view(ts@);
            }
            push_be4(out, ts.len() as u32);
            encode_items(ts, 0, out);
            proof {
                assert(tags_view(ts@).skip(0) =~= tags_view(ts@));
                assert(out@ =~= old(out)@ + spec_encode(t@));
            }
        },
    }
}

/// Appends the wire bytes of the dictionary chain for the entries from
/// index `i` on.
fn encode_dict_entries(es: &Vec<(Vec<u8>, Tag)>, i: usize, out: &mut Vec<u8>)
    requires
        i <= es.len(),
        encodable_entries(entries_view(es@)),
    ensures
        final(out)@ == old(out)@ + spec_encode_dict_entries(entries_view(es@).skip(i as int)),
    decreases es, 1int, es.len() - i,
{
    proof {
        lemma_entries_view(es@);
    }
    let ghost evs = entries_view(es@);
    if i == es.len() {
        out.push(TAG_NULL);
        proof {
            assert(evs.skip(i as int) =~= Seq::<(Seq<u8>, TagV)>::empty());
            assert(out@ =~= old(out)@ + spec_encode_dict_entries(evs.skip(i as int)));
        }
        return ;
    }
    out.push(TAG_PAIR);
    out.push(TAG_SYMBOL);
    push_be2(out, es[i].0.len() as u16);
    push_bytes(out, &es[i].0);
    proof {
        assert(evs[i as int].1 == tag_view(es@[i as int].1));
        assert(encodable(evs[i as int].1));
    }
    encode(&es[i].1, out);
    if i + 1 < es.len() {
        out.push(TAG_DICT);
        encode_dict_entries(es, i + 1, out);
        proof {
            assert(evs.skip(i as int).drop_first() =~= evs.skip(i + 1));
            assert(evs.skip(i as int)[0] == evs[i as int]);
            assert(out@ =~= old(out)@ + spec_encode_dict_entries(evs.skip(i as int)));
        }
    } else {
        out.push(TAG_NULL);
        proof {
            assert(evs.skip(i as int)[0] == evs[i as int]);
            assert(evs.skip(i as int).len() == 1);
            assert(out@ =~= old(out)@ + spec_encode_dict_entries(evs.skip(i as int)));
        }
    }
}

/// Appends the wire bytes of the tuple items from index `i` on.
fn encode_items(ts: &Vec<Tag>, i: usize, out: &mut Vec<u8>)
    requires
        i <= ts.len(),
        encodable_items(tags_view(ts@)),
    ensures
        final(out)@ == old(out)@ + spec_encode_items(tags_view(ts@).skip(i as int)),
    decreases ts, 1int, ts.len() - i,
{
    proof {
        lemma_tags_view(ts@);
    }
    let ghost tvs = tags_view(ts@);
    if i == ts.len() {
        proof {
            assert(tvs.skip(i as int) =~= Seq::<TagV>::empty());
            assert(out@ =~= old(out)@ + spec_encode_items(tvs.skip(i as int)));
        }
        return ;
    }
    proof {
        assert(tvs[i as int] == tag_view(ts@[i as int]));
        assert(encodable(tvs[i as int]));
    }
    encode(&ts[i], out);
    encode_items(ts, i + 1, out);
    proof {
        assert(tvs.skip(i as int).drop_first() =~= tvs.skip(i + 1));
        assert(tvs.skip(i as int)[0] == tvs[i as int]);
        assert(out@ =~= old(out)@ + spec_encode_items(tvs.skip(i as int)));
    }
}

/// A window over a concatenation splits into windows over the parts.
proof fn lemma_subrange_split(s: Seq<u8>, pos: int, a: Seq<u8>, b: Seq<u8>)
    requires
        0 <= pos,
        pos + a.len() + b.len() <= s.len(),
        s.subrange(pos, pos + a.len() + b.len()) == a + b,
    ensures
        s.subrange(pos, pos + a.len()) == a,
        s.subrange(pos + a.len(), pos + a.len() + b.len()) == b,
{
    assert forall|i: int| 0 <= i < a.len() implies s.subrange(pos, pos + a.len())[i] == a[i] by {
        assert(s.subrange(pos, pos + a.len() + b.len())[i] == s[pos + i]);
    }
    assert forall|i: int|
        0 <= i < b.len() implies s.subrange(pos + a.len(), pos + a.len() + b.len())[i] == b[i] by {
        assert(s.subrange(pos, pos + a.len() + b.len())[a.len() + i] == s[pos + a.len() + i]);
        assert((a + b)[a.len() + i] == b[i]);
    }
    assert(s.subrange(pos, pos + a.len()) =~= a);
    assert(s.subrange(pos + a.len(), pos + a.len() + b.len()) =~= b);
}

/// Reading back the two big-endian bytes of a u16 yields the value.
proof fn lemma_be2_val(s: Seq<u8>, pos: int, v: u16)
    requires
        0 <= pos,
        pos + 2 <= s.len(),
        s.subrange(pos, pos + 2) == be2(v),
    ensures
        be_val(s, pos, 2) == v,
{
    reveal_with_fuel(be_val, 3);
    assert(s[pos] == be2(v)[0] && s[pos + 1] == be2(v)[1]) by {
        assert(s.subrange(pos, pos + 2)[0] == s[pos]);
        assert(s.subrange(pos, pos + 2)[1] == s[pos + 1]);
    }
}

/// Reading back the four big-endian bytes of a u32 yields the value.
proof fn lemma_be4_val(s: Seq<u8>, pos: int, v: u32)
    requires
        0 <= pos,
        pos + 4 <= s.len(),
        s.subrange(pos, pos + 4) == be4(v),
    ensures
        be_val(s, pos, 4) == v,
{
    reveal_with_fuel(be_val, 5);
    assert forall|i: int| 0 <= i < 4 implies s[pos + i] == be4(v)[i] by {
        assert(s.subrange(pos, pos + 4)[i] == s[pos + i]);
    }
}

/// Reading back the eight big-endian bytes of a u64 yields the value.
proof fn lemma_be8_val(s: Seq<u8>, pos: int, v: u64)
    requires
        0 <= pos,
        pos + 8 <= s.len(),
        s.subrange(pos, pos + 8) == be8(v),
    ensures
        be_val(s, pos, 8) == v,
{
    reveal_with_fuel(be_val, 9);
    assert forall|i: int| 0 <= i < 8 implies s[pos + i] == be8(v)[i] by {
        assert(s.subrange(pos, pos + 8)[i] == s[pos + i]);
    }
    assert((((((((v / 0x100_0000_0000_0000) * 0x100 + (v / 0x1_0000_0000_0000) % 0x100) * 0x100 + (
    v / 0x100_0000_0000) % 0x100) * 0x100 + (v / 0x1_0000_0000) % 0x100) * 0x100 + (v / 0x100_0000)
        % 0x100) * 0x100 + (v / 0x1_0000) % 0x100) * 0x100 + (v / 0x100) % 0x100) * 0x100 + v
        % 0x100 == v) by (bit_vector);
    assert(v / 0x100_0000_0000_0000 < 0x100) by (bit_vector);
}

/// An encoded symbol record parses back to its text.
proof fn lemma_symbol_round_trip(s: Seq<u8>, pos: int, key: Seq<u8>)
    requires
        0 <= pos,
        key.len() <= u16::MAX,
        is_utf8(key),
        pos + 3 + key.len() <= s.len(),
        s[pos] == TAG_SYMBOL,
        s.subrange(pos + 1, pos + 3) == be2(key.len() as u16),
        s.subrange(pos + 3, pos + 3 + key.len()) == key,
    ensures
        spec_parse(s, pos) == SpecParse::Parsed(TagV::Symbol(key), pos + 3 + key.len()),
{
    lemma_be2_val(s, pos + 1, key.len() as u16);
}

/// An encoded record embedded in any stream parses back to the encoded
/// value, consuming exactly the encoding: the round trip of the wire
/// format, for every supported tag value.
#[verifier::rlimit(100)]
pub proof fn lemma_parse_encode_round_trip(s: Seq<u8>, pos: int, t: TagV)
    requires
        tag_wf(t),
        0 <= pos,
        pos + spec_encode(t).len() <= s.len(),
        s.subrange(pos, pos + spec_encode(t).len()) == spec_encode(t),
    ensures
        spec_parse(s, pos) == SpecParse::Parsed(t, pos + spec_encode(t).len()),
    decreases t, 0int, 0int,
{
    let enc = spec_encode(t);
    assert(s[pos] == enc[0]) by {
        assert(s.subrange(pos, pos + enc.len())[0] == s[pos]);
    }
    match t {
        TagV::Bool(b) => {},
        TagV::Symbol(sym) => {
            assert(enc =~= seq![TAG_SYMBOL] + (be2(sym.len() as u16) + sym));
            lemma_subrange_split(s, pos, seq![TAG_SYMBOL], be2(sym.len() as u16) + sym);
            lemma_subrange_split(s, pos + 1, be2(sym.len() as u16), sym);
            lemma_symbol_round_trip(s, pos, sym);
        },
        TagV::Int32(i) => {
            assert(enc =~= seq![TAG_INT32] + be4(u32_of_i32(i)));
            lemma_subrange_split(s, pos, seq![TAG_INT32], be4(u32_of_i32(i)));
            lemma_be4_val(s, pos + 1, u32_of_i32(i));
            assert(i32_of_u32_val(u32_of_i32(i) as int) == i);
        },
        TagV::Double(bits) => {
            assert(enc =~= seq![TAG_DOUBLE] + be8(bits));
            lemma_subrange_split(s, pos, seq![TAG_DOUBLE], be8(bits));
            lemma_be8_val(s, pos + 1, bits);
        },
        TagV::Null => {},
        TagV::Pair(a, b) => {
            let e1 = spec_encode(*a);
            let e2 = spec_encode(*b);
            assert(enc =~= seq![TAG_PAIR] + (e1 + e2));
            lemma_subrange_split(s, pos, seq![TAG_PAIR], e1 + e2);
            lemma_subrange_split(s, pos + 1, e1, e2);
            lemma_parse_encode_round_trip(s, pos + 1, *a);
            lemma_parse_encode_round_trip(s, pos + 1 + e1.len(), *b);
        },
        TagV::Dict(es) => {
            let ec = spec_encode_dict_entries(es);
            assert(enc =~= seq![TAG_DICT] + ec);
            lemma_subrange_split(s, pos, seq![TAG_DICT], ec);
            lemma_dict_entries_round_trip(s, pos + 1, es, Seq::empty());
            assert(Seq::empty() + es =~= es);
        },
        TagV::UInt64(u) => {
            assert(enc =~= seq![TAG_UINT64] + be8(u));
            lemma_subrange_split(s, pos, seq![TAG_UINT64], be8(u));
            lemma_be8_val(s, pos + 1, u);
        },
        TagV::Tuple(ts) => {
            let ei = spec_encode_items(ts);
            assert(enc =~= seq![TAG_TUPLE] + (be4(ts.len() as u32) + ei));
            lemma_subrange_split(s, pos, seq![TAG_TUPLE], be4(ts.len() as u32) + ei);
            lemma_subrange_split(s, pos + 1, be4(ts.len() as u32), ei);
            lemma_be4_val(s, pos + 1, ts.len() as u32);
            lemma_tuple_items_round_trip(s, pos + 5, ts, Seq::empty());
            assert(Seq::empty() + ts =~= ts);
        },
    }
}

/// An encoded dictionary chain parses back to the accumulated entries
/// followed by the encoded ones.
proof fn lemma_dict_entries_round_trip(
    s: Seq<u8>,
    pos: int,
    es: Seq<(Seq<u8>, TagV)>,
    acc: Seq<(Seq<u8>, TagV)>,
)
    requires
        es.len() >= 1,
        wf_entries(es),
        unique_keys(es),
        forall|i: int, j: int|
            0 <= i < acc.len() && 0 <= j < es.len() ==> #[trigger] acc[i].0 != #[trigger] es[j].0,
        0 <= pos,
        pos + spec_encode_dict_entries(es).len() <= s.len(),
        s.subrange(pos, pos + spec_encode_dict_entries(es).len()) == spec_encode_dict_entries(es),
    ensures
        spec_parse_dict_inner(s, pos, acc) == SpecParse::Parsed(
            TagV::Dict(acc + es),
            pos + spec_encode_dict_entries(es).len(),
        ),
    decreases es, 1int, 0int,
{
    let enc = spec_encode_dict_entries(es);
    let key = es[0].0;
    let kenc = be2(key.len() as u16);
    let venc = spec_encode(es[0].1);
    let rest: Seq<u8> = if es.len() == 1 {
        seq![TAG_NULL]
    } else {
        seq![TAG_DICT] + spec_encode_dict_entries(es.drop_first())
    };
    assert(enc =~= seq![TAG_PAIR] + (seq![TAG_SYMBOL] + (kenc + (key + (venc + rest)))));
    lemma_subrange_split(s, pos, seq![TAG_PAIR], seq![TAG_SYMBOL] + (kenc + (key + (venc + rest))));
    lemma_subrange_split(s, pos + 1, seq![TAG_SYMBOL], kenc + (key + (venc + rest)));
    lemma_subrange_split(s, pos + 2, kenc, key + (venc + rest));
    lemma_subrange_split(s, pos + 4, key, venc + rest);
    let vpos = pos + 4 + key.len();
    lemma_subrange_split(s, vpos, venc, rest);
    assert(s[pos] == TAG_PAIR) by {
        assert(s.subrange(pos, pos + 1)[0] == s[pos]);
    }
    assert(s[pos + 1] == TAG_SYMBOL) by {
        assert(s.subrange(pos + 1, pos + 2)[0] == s[pos + 1]);
    }
    lemma_symbol_round_trip(s, pos + 1, key);
    lemma_parse_encode_round_trip(s, vpos, es[0].1);
    let p2 = vpos + venc.len();
    assert(s[p2] == rest[0]) by {
        assert(s.subrange(p2, p2 + rest.len())[0] == s[p2]);
    }
    let acc2 = dict_insert(acc, key, es[0].1);
    lemma_dict_insert_append(acc, key, es[0].1);
    assert(acc2 == acc.push((key, es[0].1)));
    if es.len() == 1 {
        assert(acc2 =~= acc + es);
    } else {
        let es1 = es.drop_first();
        assert(forall|j: int| 0 <= j < es1.len() ==> es1[j] == es[j + 1]);
        lemma_subrange_split(s, p2, seq![TAG_DICT], spec_encode_dict_entries(es1));
        lemma_dict_entries_round_trip(s, p2 + 1, es1, acc2);
        assert(acc2 + es1 =~= acc + es);
    }
}

/// Encoded tuple items parse back to the accumulated items followed by the
/// encoded ones.
proof fn lemma_tuple_items_round_trip(s: Seq<u8>, pos: int, ts: Seq<TagV>, acc: Seq<TagV>)
    requires
        wf_items(ts),
        0 <= pos,
        pos + spec_encode_items(ts).len() <= s.len(),
        s.subrange(pos, pos + spec_encode_items(ts).len()) == spec_encode_items(ts),
    ensures
        spec_parse_tuple_items(s, pos, ts.len() as int, acc) == SpecParse::Parsed(
            TagV::Tuple(acc + ts),
            pos + spec_encode_items(ts).len(),
        ),
    decreases ts, 1int, 0int,
{
    if ts.len() == 0 {
        assert(acc + ts =~= acc);
    } else {
        let e0 = spec_encode(ts[0]);
        let erest = spec_encode_items(ts.drop_first());
        lemma_subrange_split(s, pos, e0, erest);
        lemma_parse_encode_round_trip(s, pos, ts[0]);
        lemma_tuple_items_round_trip(s, pos + e0.len(), ts.drop_first(), acc.push(ts[0]));
        assert(acc.push(ts[0]) + ts.drop_first() =~= acc + ts);
    }
}

/// A stream that ends immediately after the leading type byte of a record
/// with a body parses to an end-of-stream error: the leniency of
/// `parse_maybe_eof` applies only to the very first byte.
pub proof fn lemma_truncated_record_errors(s: Seq<u8>, pos: int)
    requires
        0 <= pos,
        pos == s.len() - 1,
        s[pos] == TAG_SYMBOL || s[pos] == TAG_INT32 || s[pos] == TAG_DOUBLE || s[pos] == TAG_PAIR
            || s[pos] == TAG_DICT || s[pos] == TAG_UINT64 || s[pos] == TAG_TUPLE,
    ensures
        spec_parse(s, pos) == SpecParse::Error(ParseError::UnexpectedEOF),
{
    let k = s[pos];
    let e = SpecParse::Error(ParseError::UnexpectedEOF);
    if k == TAG_SYMBOL {
        assert(spec_parse_tag(s, pos + 1, k) == e);
    } else if k == TAG_INT32 {
        assert(spec_parse_tag(s, pos + 1, k) == e);
    } else if k == TAG_DOUBLE {
        assert(spec_parse_tag(s, pos + 1, k) == e);
    } else if k == TAG_PAIR {
        assert(spec_parse(s, pos + 1) == e);
        assert(spec_parse_tag(s, pos + 1, k) == e);
    } else if k == TAG_DICT {
        assert(spec_parse_dict_inner(s, pos + 1, Seq::empty()) == e);
        assert(spec_parse_tag(s, pos + 1, k) == e);
    } else if k == TAG_UINT64 {
        assert(spec_parse_tag(s, pos + 1, k) == e);
    } else if k == TAG_TUPLE {
        assert(spec_parse_tag(s, pos + 1, k) == e);
    }
}

} // verus!
