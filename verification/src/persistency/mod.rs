//! The binary project format.
//!
//! A project file starts with a small header (magic number, version, flags
//! and header length) followed by blocks. Each block starts with its type
//! (one byte) and its size (four bytes, little endian, counting these five
//! bytes). Integers inside blocks are unsigned LEB128 varints; strings are a
//! varint byte length followed by the UTF-8 bytes; some blocks are zlib
//! compressed.

use byteorder::{ByteOrder, LittleEndian, WriteBytesExt};
use vstd::prelude::*;
use vstd::string::StringSliceAdditionalSpecFns;
use vstd::utf8::valid_utf8;

use crate::nobject::{Literal, NObject, NObjectView, PredicateLiteral, PredicateReference};
use crate::string_indexer::IndexSpan;
use crate::IriIndex;

pub mod blocks;
pub mod nodes;
pub mod payloads;
pub mod project;

verus! {

/// "rdfg" in ASCII, read as a little endian `u32`.
pub const MAGIC_NUMBER: u32 = 0x47464452;

pub const FORMAT_VERSION: u16 = 0;

pub const FORMAT_FLAGS: u16 = 0;

/// Bytes of the block type and block size that start every block.
pub const BLOCK_PRELUDE_SIZE: u32 = 5;

/// Length of the file header that the writer produces.
pub const HEADER_LENGTH: u16 = 10;

/// Index of a language tag.
pub type LangIndex = usize;

/// Index of a literal data type.
pub type DataTypeIndex = usize;

/// Why a project could not be read.
#[derive(Debug, Clone, Copy, PartialEq, Eq, Structural)]
pub enum PersistError {
    /// The data ends before the item does.
    UnexpectedEnd,
    /// The data ends inside a varint, or the varint exceeds 64 bits.
    InvalidVarint,
    /// A string is not valid UTF-8.
    InvalidUtf8,
    /// A field descriptor names no known field type.
    UnknownFieldType,
    /// A literal starts with an unknown type byte.
    UnknownLiteralType(u8),
    /// The file does not start with the magic number.
    WrongMagicNumber,
    /// A block declares a size smaller than its own prelude.
    InvalidBlockSize,
    /// A compressed block does not decompress.
    InvalidCompression,
    /// A block holds more than the format can index.
    BlockTooLarge,
}

/// Kinds of blocks.
#[derive(Debug, Clone, Copy, PartialEq, Eq, Structural)]
pub enum HeaderType {
    Predicates,
    Types,
    Languages,
    DataTypes,
    Nodes,
    Prefixes,
    VisualNodes,
    VisualStyles,
    Literals,
    ShortLiterals,
}

impl HeaderType {
    pub open spec fn spec_from_u8(value: u8) -> Option<HeaderType> {
        match value {
            1 => Some(HeaderType::Predicates),
            2 => Some(HeaderType::Types),
            3 => Some(HeaderType::Languages),
            4 => Some(HeaderType::DataTypes),
            5 => Some(HeaderType::Nodes),
            6 => Some(HeaderType::Prefixes),
            7 => Some(HeaderType::VisualNodes),
            8 => Some(HeaderType::VisualStyles),
            9 => Some(HeaderType::Literals),
            10 => Some(HeaderType::ShortLiterals),
            _ => None,
        }
    }

    pub open spec fn spec_code(self) -> u8 {
        match self {
            HeaderType::Predicates => 1,
            HeaderType::Types => 2,
            HeaderType::Languages => 3,
            HeaderType::DataTypes => 4,
            HeaderType::Nodes => 5,
            HeaderType::Prefixes => 6,
            HeaderType::VisualNodes => 7,
            HeaderType::VisualStyles => 8,
            HeaderType::Literals => 9,
            HeaderType::ShortLiterals => 10,
        }
    }

    /// The block type with this code, if any.
    pub fn from_u8(value: u8) -> (res: Option<HeaderType>)
        ensures
            res == Self::spec_from_u8(value),
    {
        match value {
            1 => Some(HeaderType::Predicates),
            2 => Some(HeaderType::Types),
            3 => Some(HeaderType::Languages),
            4 => Some(HeaderType::DataTypes),
            5 => Some(HeaderType::Nodes),
            6 => Some(HeaderType::Prefixes),
            7 => Some(HeaderType::VisualNodes),
            8 => Some(HeaderType::VisualStyles),
            9 => Some(HeaderType::Literals),
            10 => Some(HeaderType::ShortLiterals),
            _ => None,
        }
    }

    /// The byte that names the block type in a file.
    pub fn code(&self) -> (res: u8)
        ensures
            res == self.spec_code(),
    {
        match self {
            HeaderType::Predicates => 1,
            HeaderType::Types => 2,
            HeaderType::Languages => 3,
            HeaderType::DataTypes => 4,
            HeaderType::Nodes => 5,
            HeaderType::Prefixes => 6,
            HeaderType::VisualNodes => 7,
            HeaderType::VisualStyles => 8,
            HeaderType::Literals => 9,
            HeaderType::ShortLiterals => 10,
        }
    }
}

/// Reading back the code of a block type gives the block type.
pub proof fn lemma_header_type_code_roundtrip(header_type: HeaderType)
    ensures
        HeaderType::spec_from_u8(header_type.spec_code()) == Some(header_type),
{
}

/// Kinds of optional record fields.
#[derive(PartialEq, Eq, Debug, Copy, Clone, Structural)]
pub enum FieldType {
    VARINT,
    FIX64,
    FIX32,
    LENGTHDELIMITED,
    FLAG,
}

impl FieldType {
    pub open spec fn spec_from_idx(value: u8) -> Result<FieldType, PersistError> {
        match value {
            1 => Ok(FieldType::VARINT),
            2 => Ok(FieldType::FIX64),
            3 => Ok(FieldType::FIX32),
            4 => Ok(FieldType::LENGTHDELIMITED),
            5 => Ok(FieldType::FLAG),
            _ => Err(PersistError::UnknownFieldType),
        }
    }

    pub open spec fn spec_code(self) -> u8 {
        match self {
            FieldType::VARINT => 1,
            FieldType::FIX64 => 2,
            FieldType::FIX32 => 3,
            FieldType::LENGTHDELIMITED => 4,
            FieldType::FLAG => 5,
        }
    }

    /// The field type with this code.
    pub fn from_idx(value: u8) -> (res: Result<Self, PersistError>)
        ensures
            res == Self::spec_from_idx(value),
    {
        match value {
            1 => Ok(FieldType::VARINT),
            2 => Ok(FieldType::FIX64),
            3 => Ok(FieldType::FIX32),
            4 => Ok(FieldType::LENGTHDELIMITED),
            5 => Ok(FieldType::FLAG),
            _ => Err(PersistError::UnknownFieldType),
        }
    }

    /// The code of the field type in a field descriptor.
    pub fn code(&self) -> (res: u8)
        ensures
            res == self.spec_code(),
    {
        match self {
            FieldType::VARINT => 1,
            FieldType::FIX64 => 2,
            FieldType::FIX32 => 3,
            FieldType::LENGTHDELIMITED => 4,
            FieldType::FLAG => 5,
        }
    }
}

// ---------------------------------------------------------------------------
// Varints (unsigned LEB128)

/// The unsigned LEB128 encoding of `v`: seven bits per byte, least
/// significant group first, the high bit set on all bytes but the last.
pub open spec fn leb128_encoding(v: nat) -> Seq<u8>
    decreases v,
{
    if v < 128 {
        seq![v as u8]
    } else {
        seq![(v % 128 + 128) as u8] + leb128_encoding(v / 128)
    }
}

/// Decoding of an unsigned LEB128 varint from byte `i` on: the value of the
/// groups from `i` and the position after the last byte. At most ten bytes
/// are read, and the tenth may only be 0 or 1, so the value fits 64 bits.
pub open spec fn leb128_decode_at(s: Seq<u8>, i: int) -> Option<(nat, int)>
    decreases 10 - i,
{
    if i < 0 || i > 9 || i >= s.len() {
        None
    } else if i == 9 && s[i] > 1 {
        None
    } else if s[i] < 128 {
        Some((s[i] as nat, i + 1))
    } else {
        match leb128_decode_at(s, i + 1) {
            Some((v, e)) => Some(((s[i] - 128) as nat + 128 * v, e)),
            None => None,
        }
    }
}

/// Decoding of an unsigned LEB128 varint at the start of `s`: the value and
/// the number of bytes it takes.
pub open spec fn leb128_decode(s: Seq<u8>) -> Option<(nat, nat)> {
    match leb128_decode_at(s, 0) {
        Some((v, e)) => Some((v, e as nat)),
        None => None,
    }
}

/// `leb128::write::unsigned` into a vector: appends the LEB128 encoding.
#[verifier::external_body]
fn leb_write(out: &mut Vec<u8>, v: u64)
    ensures
        final(out)@ == old(out)@ + leb128_encoding(v as nat),
{
    let _ = leb128::write::unsigned(out, v);
}

/// `leb128::read::unsigned` from a byte slice: the value and the number of
/// bytes left unread, or `None` when the data ends first or the varint does
/// not fit 64 bits.
#[verifier::external_body]
fn leb_read(bytes: &[u8]) -> (res: Option<(u64, usize)>)
    ensures
        res is Some <==> leb128_decode(bytes@) is Some,
        res matches Some((v, rest)) ==> v as nat == leb128_decode(bytes@).unwrap().0 && rest == bytes@.len()
            - leb128_decode(bytes@).unwrap().1,
{
    let mut rest: &[u8] = bytes;
    match leb128::read::unsigned(&mut rest) {
        Ok(v) => Some((v, rest.len())),
        Err(_) => None,
    }
}

/// Upper bound of the value a varint can hold from byte `i` on.
pub open spec fn leb128_bound(i: int) -> nat
    decreases 9 - i,
{
    if i >= 9 {
        2
    } else {
        128 * leb128_bound(i + 1)
    }
}

proof fn lemma_leb128_bound_u64()
    ensures
        leb128_bound(0) == 0x1_0000_0000_0000_0000,
{
    reveal_with_fuel(leb128_bound, 10);
}

proof fn lemma_leb128_decode_encoding_at(s: Seq<u8>, i: int, v: nat)
    requires
        0 <= i <= 9,
        v < leb128_bound(i),
        i + leb128_encoding(v).len() <= s.len(),
        s.subrange(i, i + leb128_encoding(v).len()) == leb128_encoding(v),
    ensures
        leb128_decode_at(s, i) == Some((v, i + leb128_encoding(v).len())),
    decreases v,
{
    let e = leb128_encoding(v);
    assert(s[i] == s.subrange(i, i + e.len())[0]);
    if v < 128 {
        if i == 9 {
            reveal_with_fuel(leb128_bound, 1);
        }
    } else {
        if i == 9 {
            reveal_with_fuel(leb128_bound, 1);
            assert(false);
        }
        assert(leb128_bound(i) == 128 * leb128_bound(i + 1));
        let rest = leb128_encoding(v / 128);
        assert(e =~= seq![(v % 128 + 128) as u8] + rest);
        assert(s.subrange(i + 1, i + 1 + rest.len()) =~= rest) by {
            assert forall|k: int| 0 <= k < rest.len() implies s.subrange(i + 1, i + 1 + rest.len())[k] == rest[k] by {
                assert(s.subrange(i, i + e.len())[k + 1] == e[k + 1]);
            }
        }
        lemma_leb128_decode_encoding_at(s, i + 1, v / 128);
    }
}

/// A varint reads back as the value it encodes, whatever follows it.
pub proof fn lemma_leb128_roundtrip(v: u64, rest: Seq<u8>)
    ensures
        leb128_decode(leb128_encoding(v as nat) + rest) == Some((v as nat, leb128_encoding(v as nat).len())),
        leb128_encoding(v as nat).len() <= 10,
{
    let s = leb128_encoding(v as nat) + rest;
    lemma_leb128_bound_u64();
    assert(s.subrange(0, leb128_encoding(v as nat).len() as int) =~= leb128_encoding(v as nat));
    lemma_leb128_decode_encoding_at(s, 0, v as nat);
    lemma_leb128_decode_len(s, 0);
}

pub(crate) proof fn lemma_leb128_decode_len(s: Seq<u8>, i: int)
    ensures
        leb128_decode_at(s, i) matches Some((v, e)) ==> i < e <= 10 && e <= s.len(),
    decreases 10 - i,
{
    if 0 <= i <= 9 && i < s.len() && !(i == 9 && s[i] > 1) && s[i] >= 128 {
        lemma_leb128_decode_len(s, i + 1);
    }
}

/// Reads a varint at `pos`: the value and the position after it.
pub fn read_varint(data: &[u8], pos: usize) -> (res: Result<(u64, usize), PersistError>)
    requires
        pos <= data@.len(),
    ensures
        res == match leb128_decode(data@.subrange(pos as int, data@.len() as int)) {
            Some((v, n)) => Ok::<(u64, usize), PersistError>((v as u64, (pos + n) as usize)),
            None => Err(PersistError::InvalidVarint),
        },
        res matches Ok((_, next)) ==> pos < next <= data@.len() && next == pos + leb128_decode(
            data@.subrange(pos as int, data@.len() as int),
        ).unwrap().1,
{
    let (_, rest) = data.split_at(pos);
    assert(rest@ =~= data@.subrange(pos as int, data@.len() as int));
    proof {
        lemma_leb128_decode_len(rest@, 0);
    }
    match leb_read(rest) {
        Some((v, remaining)) => Ok((v, data.len() - remaining)),
        None => Err(PersistError::InvalidVarint),
    }
}

/// Appends a varint.
pub fn write_varint(out: &mut Vec<u8>, v: u64)
    ensures
        final(out)@ == old(out)@ + leb128_encoding(v as nat),
{
    leb_write(out, v);
}

// ---------------------------------------------------------------------------
// Fixed-width little endian integers

/// The little endian bytes of a `u32`.
pub open spec fn u32_le_bytes(v: u32) -> Seq<u8> {
    seq![(v % 256) as u8, ((v / 256) % 256) as u8, ((v / 65536) % 256) as u8, (v / 16777216) as u8]
}

/// The little endian bytes of a `u16`.
pub open spec fn u16_le_bytes(v: u16) -> Seq<u8> {
    seq![(v % 256) as u8, (v / 256) as u8]
}

/// The `u32` whose little endian bytes start `s`.
pub open spec fn u32_from_le(s: Seq<u8>) -> u32 {
    (s[0] + 256 * s[1] + 65536 * s[2] + 16777216 * s[3]) as u32
}

/// The `u16` whose little endian bytes start `s`.
pub open spec fn u16_from_le(s: Seq<u8>) -> u16 {
    (s[0] + 256 * s[1]) as u16
}

/// `WriteBytesExt::write_u32::<LittleEndian>` into a vector.
#[verifier::external_body]
pub(crate) fn write_u32_le(out: &mut Vec<u8>, v: u32)
    ensures
        final(out)@ == old(out)@ + u32_le_bytes(v),
{
    let _ = out.write_u32::<LittleEndian>(v);
}

/// `WriteBytesExt::write_u16::<LittleEndian>` into a vector.
#[verifier::external_body]
pub(crate) fn write_u16_le(out: &mut Vec<u8>, v: u16)
    ensures
        final(out)@ == old(out)@ + u16_le_bytes(v),
{
    let _ = out.write_u16::<LittleEndian>(v);
}

/// `LittleEndian::read_u32`: the `u32` in the first four bytes.
#[verifier::external_body]
pub(crate) fn read_u32_le(bytes: &[u8]) -> (res: u32)
    requires
        bytes@.len() >= 4,
    ensures
        res == u32_from_le(bytes@),
{
    LittleEndian::read_u32(bytes)
}

/// `LittleEndian::read_u16`: the `u16` in the first two bytes.
#[verifier::external_body]
pub(crate) fn read_u16_le(bytes: &[u8]) -> (res: u16)
    requires
        bytes@.len() >= 2,
    ensures
        res == u16_from_le(bytes@),
{
    LittleEndian::read_u16(bytes)
}

/// A little endian `u32` reads back as itself.
pub proof fn lemma_u32_le_roundtrip(v: u32, rest: Seq<u8>)
    ensures
        u32_from_le(u32_le_bytes(v) + rest) == v,
{
    let s = u32_le_bytes(v) + rest;
    assert(s[0] == (v % 256) as u8 && s[1] == ((v / 256) % 256) as u8 && s[2] == ((v / 65536) % 256) as u8
        && s[3] == (v / 16777216) as u8);
}

/// A little endian `u16` reads back as itself.
pub proof fn lemma_u16_le_roundtrip(v: u16, rest: Seq<u8>)
    ensures
        u16_from_le(u16_le_bytes(v) + rest) == v,
{
    let s = u16_le_bytes(v) + rest;
    assert(s[0] == (v % 256) as u8 && s[1] == (v / 256) as u8);
}

// ---------------------------------------------------------------------------
// Parsing specifications: each parser reads an item at the start of the
// bytes and gives the item with the number of bytes it takes.

/// A varint.
pub open spec fn parse_varint(s: Seq<u8>) -> Result<(u64, nat), PersistError> {
    match leb128_decode(s) {
        Some((v, n)) => Ok((v as u64, n)),
        None => Err(PersistError::InvalidVarint),
    }
}

/// A varint read back after writing.
pub proof fn lemma_parse_varint_roundtrip(v: u64, rest: Seq<u8>)
    ensures
        parse_varint(leb128_encoding(v as nat) + rest) == Ok::<(u64, nat), PersistError>((v, leb128_encoding(v as nat).len())),
{
    lemma_leb128_roundtrip(v, rest);
}

/// The varint that describes an optional field: the field index in the high
/// bits (shifted within 32 bits) and the field type in the low three bits.
pub open spec fn field_key(field_type: FieldType, field_index: u32) -> u64 {
    ((field_index as int * 8) % 0x1_0000_0000 + field_type.spec_code()) as u64
}

pub open spec fn encode_field_index(field_type: FieldType, field_index: u32) -> Seq<u8> {
    leb128_encoding(field_key(field_type, field_index) as nat)
}

/// A field descriptor: its type and index.
pub open spec fn parse_field_index(s: Seq<u8>) -> Result<((FieldType, u32), nat), PersistError> {
    match parse_varint(s) {
        Ok((key, n)) => match FieldType::spec_from_idx((key % 8) as u8) {
            Ok(t) => Ok(((t, (key / 8) as u32), n)),
            Err(e) => Err(e),
        },
        Err(e) => Err(e),
    }
}

/// Writes a field descriptor.
pub fn write_field_index(out: &mut Vec<u8>, field_type: FieldType, field_index: u32)
    ensures
        final(out)@ == old(out)@ + encode_field_index(field_type, field_index),
{
    let code = field_type.code() as u64;
    let shifted = field_index << 3u32;
    let field_encoded = shifted as u64 | code;
    assert(field_encoded == field_key(field_type, field_index)) by {
        assert(code < 8);
        assert(((field_index << 3u32) as u64 | code) == ((field_index as u64 * 8) % 0x1_0000_0000 + code)) by (bit_vector)
            requires
                code < 8;
    }
    write_varint(out, field_encoded);
}

/// Reads a field descriptor at `pos`: its type, its index and the position
/// after it.
pub fn read_field_index(data: &[u8], pos: usize) -> (res: Result<(FieldType, u32, usize), PersistError>)
    requires
        pos <= data@.len(),
    ensures
        res == match parse_field_index(data@.subrange(pos as int, data@.len() as int)) {
            Ok(((t, i), n)) => Ok::<(FieldType, u32, usize), PersistError>((t, i, (pos + n) as usize)),
            Err(e) => Err(e),
        },
{
    let (field_encoded, next) = read_varint(data, pos)?;
    let type_code = field_encoded & 7u64;
    let index_bits = field_encoded >> 3u64;
    assert(type_code == field_encoded % 8 && index_bits == field_encoded / 8) by (bit_vector)
        requires
            type_code == field_encoded & 7u64,
            index_bits == field_encoded >> 3u64;
    let field_type = FieldType::from_idx(type_code as u8)?;
    Ok((field_type, index_bits as u32, next))
}

/// A field descriptor reads back as written when its index fits 29 bits.
pub proof fn lemma_field_index_roundtrip(field_type: FieldType, field_index: u32, rest: Seq<u8>)
    requires
        field_index < 0x2000_0000,
    ensures
        parse_field_index(encode_field_index(field_type, field_index) + rest) == Ok::<((FieldType, u32), nat), PersistError>(
            ((field_type, field_index), encode_field_index(field_type, field_index).len()),
        ),
{
    let key = field_key(field_type, field_index);
    let x = field_index as int;
    let c = field_type.spec_code() as int;
    assert(0 <= c < 8);
    assert(x * 8 < 0x1_0000_0000) by (nonlinear_arith)
        requires
            0 <= x < 0x2000_0000,
    ;
    assert((x * 8) % 0x1_0000_0000 == x * 8) by (nonlinear_arith)
        requires
            0 <= x * 8 < 0x1_0000_0000,
    ;
    assert((x * 8 + c) % 8 == c && (x * 8 + c) / 8 == x) by (nonlinear_arith)
        requires
            0 <= c < 8,
    ;
    assert(key as int == x * 8 + c);
    lemma_parse_varint_roundtrip(key, rest);
    assert(key % 8 == field_type.spec_code());
    assert(key / 8 == field_index);
}

/// The number of bytes a field of this type takes at the start of `s`: a
/// varint's bytes, eight or four fixed bytes (fewer where the data ends
/// first), a length varint and that many bytes, or none for a flag.
pub open spec fn parse_skip(s: Seq<u8>, field_type: FieldType) -> Result<nat, PersistError> {
    match field_type {
        FieldType::VARINT => match parse_varint(s) {
            Ok((_, n)) => Ok(n),
            Err(e) => Err(e),
        },
        FieldType::FIX64 => Ok(if s.len() < 8 {
            s.len()
        } else {
            8
        }),
        FieldType::FIX32 => Ok(if s.len() < 4 {
            s.len()
        } else {
            4
        }),
        FieldType::LENGTHDELIMITED => match parse_varint(s) {
            Ok((len, n)) => if n + len <= s.len() {
                Ok((n + len) as nat)
            } else {
                Err(PersistError::UnexpectedEnd)
            },
            Err(e) => Err(e),
        },
        FieldType::FLAG => Ok(0),
    }
}

/// Skips the value of a field of the given type at `pos`: the position
/// after it.
pub fn skip_field(data: &[u8], pos: usize, field_type: FieldType) -> (res: Result<usize, PersistError>)
    requires
        pos <= data@.len(),
    ensures
        res == match parse_skip(data@.subrange(pos as int, data@.len() as int), field_type) {
            Ok(n) => Ok::<usize, PersistError>((pos + n) as usize),
            Err(e) => Err(e),
        },
        res matches Ok(next) ==> pos <= next <= data@.len(),
{
    let ghost rest = data@.subrange(pos as int, data@.len() as int);
    let remaining = data.len() - pos;
    match field_type {
        FieldType::VARINT => {
            let (_, next) = read_varint(data, pos)?;
            Ok(next)
        },
        FieldType::FIX64 => Ok(if remaining < 8 {
            data.len()
        } else {
            pos + 8
        }),
        FieldType::FIX32 => Ok(if remaining < 4 {
            data.len()
        } else {
            pos + 4
        }),
        FieldType::LENGTHDELIMITED => {
            let (len, next) = read_varint(data, pos)?;
            if len <= (data.len() - next) as u64 {
                Ok(next + len as usize)
            } else {
                Err(PersistError::UnexpectedEnd)
            }
        },
        FieldType::FLAG => Ok(pos),
    }
}

/// A length-delimited field: its descriptor, the data's length as a
/// varint, then the data.
pub open spec fn encode_var_field(field_id: u32, bytes: Seq<u8>) -> Seq<u8> {
    encode_field_index(FieldType::LENGTHDELIMITED, field_id) + leb128_encoding(bytes.len()) + bytes
}

/// Writes a length-delimited field with the given data.
pub fn write_var_field(out: &mut Vec<u8>, field_id: u32, bytes: &[u8])
    ensures
        final(out)@ == old(out)@ + encode_var_field(field_id, bytes@),
{
    write_field_index(out, FieldType::LENGTHDELIMITED, field_id);
    let ghost mid = out@;
    write_varint(out, bytes.len() as u64);
    let ghost mid2 = out@;
    let mut i: usize = 0;
    while i < bytes.len()
        invariant
            i <= bytes@.len(),
            out@ == mid2 + bytes@.take(i as int),
        decreases bytes@.len() - i,
    {
        out.push(bytes[i]);
        proof {
            assert(bytes@.take(i + 1) =~= bytes@.take(i as int).push(bytes@[i as int]));
        }
        i += 1;
    }
    proof {
        assert(bytes@.take(bytes@.len() as int) =~= bytes@);
        assert(out@ =~= old(out)@ + encode_var_field(field_id, bytes@));
    }
}

/// A length-delimited field is skipped whole.
pub proof fn lemma_var_field_skipped(field_id: u32, bytes: Seq<u8>, rest: Seq<u8>)
    requires
        field_id < 0x2000_0000,
        bytes.len() <= u64::MAX,
    ensures
        ({
            let enc = encode_var_field(field_id, bytes);
            let d = encode_field_index(FieldType::LENGTHDELIMITED, field_id);
            &&& parse_field_index(enc + rest) == Ok::<((FieldType, u32), nat), PersistError>(
                ((FieldType::LENGTHDELIMITED, field_id), d.len()),
            )
            &&& parse_skip((enc + rest).subrange(d.len() as int, (enc + rest).len() as int), FieldType::LENGTHDELIMITED)
                == Ok::<nat, PersistError>((enc.len() - d.len()) as nat)
        }),
{
    let d = encode_field_index(FieldType::LENGTHDELIMITED, field_id);
    let l = leb128_encoding(bytes.len());
    let enc = encode_var_field(field_id, bytes);
    assert(enc + rest =~= d + (l + bytes + rest));
    lemma_field_index_roundtrip(FieldType::LENGTHDELIMITED, field_id, l + bytes + rest);
    assert((enc + rest).subrange(d.len() as int, (enc + rest).len() as int) =~= l + (bytes + rest));
    lemma_parse_varint_roundtrip(bytes.len() as u64, bytes + rest);
}

/// A string: its byte length as a varint, then its UTF-8 bytes.
pub open spec fn encode_len_string(bytes: Seq<u8>) -> Seq<u8> {
    leb128_encoding(bytes.len()) + bytes
}

/// A string written with its length: the bytes of the string.
pub open spec fn parse_len_string(s: Seq<u8>) -> Result<(Seq<u8>, nat), PersistError> {
    match parse_varint(s) {
        Ok((len, n)) => {
            let l = (len as usize) as nat;
            if n + l <= s.len() {
                let b = s.subrange(n as int, (n + l) as int);
                if valid_utf8(b) {
                    Ok((b, n + l))
                } else {
                    Err(PersistError::InvalidUtf8)
                }
            } else {
                Err(PersistError::UnexpectedEnd)
            }
        },
        Err(e) => Err(e),
    }
}

/// `std::str::from_utf8`: the string whose UTF-8 encoding the bytes are, if
/// they are valid UTF-8.
#[verifier::external_body]
pub(crate) fn utf8_to_str(bytes: &[u8]) -> (res: Option<&str>)
    ensures
        res is Some <==> valid_utf8(bytes@),
        res matches Some(s) ==> s.spec_bytes() == bytes@,
{
    std::str::from_utf8(bytes).ok()
}

/// Writes a string with its length.
pub fn write_len_string(s: &str, out: &mut Vec<u8>)
    ensures
        final(out)@ == old(out)@ + encode_len_string(s.spec_bytes()),
{
    let bytes = s.as_bytes();
    write_varint(out, bytes.len() as u64);
    out.extend_from_slice(bytes);
    assert(out@ =~= old(out)@ + encode_len_string(s.spec_bytes()));
}

/// Reads a string written with its length at `pos`: the string and the
/// position after it.
pub fn read_len_string(data: &[u8], pos: usize) -> (res: Result<(String, usize), PersistError>)
    requires
        pos <= data@.len(),
    ensures
        match parse_len_string(data@.subrange(pos as int, data@.len() as int)) {
            Ok((b, n)) => res matches Ok((s, p)) && vstd::utf8::encode_utf8(s@) == b && p == pos + n,
            Err(e) => res == Err::<(String, usize), PersistError>(e),
        },
{
    let ghost s = data@.subrange(pos as int, data@.len() as int);
    proof {
        lemma_leb128_decode_len(s, 0);
    }
    let (str_len, next) = read_varint(data, pos)?;
    let len = str_len as usize;
    if len > data.len() - next {
        return Err(PersistError::UnexpectedEnd);
    }
    let end = next + len;
    let bytes = &data[next..end];
    assert(bytes@ =~= s.subrange((next - pos) as int, (next - pos) + len));
    assert(parse_varint(s) == Ok::<(u64, nat), PersistError>((str_len, (next - pos) as nat)));
    match utf8_to_str(bytes) {
        Some(text) => {
            let owned = text.to_owned();
            assert(vstd::utf8::encode_utf8(owned@) == bytes@);
            Ok((owned, end))
        },
        None => Err(PersistError::InvalidUtf8),
    }
}

/// A string written with its length reads back as the same bytes.
pub proof fn lemma_len_string_roundtrip(bytes: Seq<u8>, rest: Seq<u8>)
    requires
        valid_utf8(bytes),
        bytes.len() <= usize::MAX,
    ensures
        parse_len_string(encode_len_string(bytes) + rest) == Ok::<(Seq<u8>, nat), PersistError>(
            (bytes, encode_len_string(bytes).len()),
        ),
{
    let len = bytes.len() as u64;
    let prefix = leb128_encoding(len as nat);
    let s = encode_len_string(bytes) + rest;
    assert(s =~= prefix + (bytes + rest));
    lemma_parse_varint_roundtrip(len, bytes + rest);
    assert(s.subrange(prefix.len() as int, (prefix.len() + bytes.len()) as int) =~= bytes);
}

/// The bytes of `s` from position `k` on.
pub open spec fn skip(s: Seq<u8>, k: nat) -> Seq<u8> {
    s.subrange(k as int, s.len() as int)
}

pub(crate) proof fn lemma_skip_concat(a: Seq<u8>, b: Seq<u8>)
    ensures
        skip(a + b, a.len()) == b,
{
    assert(skip(a + b, a.len()) =~= b);
}

pub(crate) proof fn lemma_skip_skip(s: Seq<u8>, j: nat, k: nat)
    requires
        j + k <= s.len(),
    ensures
        skip(skip(s, j), k) == skip(s, j + k),
{
    assert(skip(skip(s, j), k) =~= skip(s, j + k));
}

/// A span: its start and length as varints.
pub open spec fn encode_span(span: IndexSpan) -> Seq<u8> {
    leb128_encoding(span.start as nat) + leb128_encoding(span.len as nat)
}

pub open spec fn parse_span(s: Seq<u8>) -> Result<(IndexSpan, nat), PersistError> {
    match parse_varint(s) {
        Ok((start, n1)) => match parse_varint(skip(s, n1)) {
            Ok((len, n2)) => Ok((IndexSpan { start: start as u32, len: len as u32 }, n1 + n2)),
            Err(e) => Err(e),
        },
        Err(e) => Err(e),
    }
}

pub(crate) proof fn lemma_parse_varint_len(s: Seq<u8>)
    ensures
        parse_varint(s) matches Ok((_, n)) ==> 0 < n <= s.len(),
{
    lemma_leb128_decode_len(s, 0);
}

/// A span reads back as written.
pub proof fn lemma_span_roundtrip(span: IndexSpan, rest: Seq<u8>)
    ensures
        parse_span(encode_span(span) + rest) == Ok::<(IndexSpan, nat), PersistError>((span, encode_span(span).len())),
{
    let a = leb128_encoding(span.start as nat);
    let b = leb128_encoding(span.len as nat);
    let s = encode_span(span) + rest;
    assert(s =~= a + (b + rest));
    lemma_parse_varint_roundtrip(span.start as u64, b + rest);
    lemma_skip_concat(a, b + rest);
    lemma_parse_varint_roundtrip(span.len as u64, rest);
}

impl IndexSpan {
    /// Writes the span.
    pub fn store(&self, out: &mut Vec<u8>)
        ensures
            final(out)@ == old(out)@ + encode_span(*self),
    {
        write_varint(out, self.start as u64);
        write_varint(out, self.len as u64);
        assert(out@ =~= old(out)@ + encode_span(*self));
    }

    /// Reads a span at `pos`: the span and the position after it.
    pub fn restore(data: &[u8], pos: usize) -> (res: Result<(IndexSpan, usize), PersistError>)
        requires
            pos <= data@.len(),
        ensures
            match parse_span(skip(data@, pos as nat)) {
                Ok((span, n)) => res matches Ok((sp, p)) && sp == span && p == pos + n && p <= data@.len(),
                Err(e) => res matches Err(e2) && e2 == e,
            },
            res matches Ok((_, next)) ==> pos < next <= data@.len(),
    {
        let ghost s = data@.subrange(pos as int, data@.len() as int);
        proof {
            lemma_leb128_decode_len(s, 0);
        }
        let (start, next) = read_varint(data, pos)?;
        let ghost n1: nat = (next - pos) as nat;
        let ghost t = data@.subrange(next as int, data@.len() as int);
        proof {
            assert(parse_varint(s) == Ok::<(u64, nat), PersistError>((start, n1)));
            lemma_skip_skip(data@, pos as nat, n1);
            lemma_leb128_decode_len(t, 0);
        }
        let (len, next2) = read_varint(data, next)?;
        assert(parse_varint(t) == Ok::<(u64, nat), PersistError>((len, (next2 - next) as nat)));
        Ok((IndexSpan { start: start as u32, len: len as u32 }, next2))
    }
}

/// A literal: a type byte, then the language or data type index where there
/// is one, then its span or its short string index.
pub open spec fn encode_literal(literal: Literal) -> Seq<u8> {
    match literal {
        Literal::String(span) => seq![1u8] + encode_span(span),
        Literal::LangString(lang, span) => seq![2u8] + leb128_encoding(lang as u64 as nat) + encode_span(span),
        Literal::TypedString(data_type, span) => seq![3u8] + leb128_encoding(data_type as u64 as nat) + encode_span(span),
        Literal::StringShort(index) => seq![4u8] + leb128_encoding(index as u64 as nat),
    }
}

pub open spec fn parse_literal(s: Seq<u8>) -> Result<(Literal, nat), PersistError> {
    if s.len() == 0 {
        Err(PersistError::UnexpectedEnd)
    } else if s[0] == 1 {
        match parse_span(skip(s, 1)) {
            Ok((span, n)) => Ok((Literal::String(span), 1 + n)),
            Err(e) => Err(e),
        }
    } else if s[0] == 2 || s[0] == 3 {
        match parse_varint(skip(s, 1)) {
            Ok((index, n1)) => match parse_span(skip(s, 1 + n1)) {
                Ok((span, n2)) => Ok((
                    if s[0] == 2 {
                        Literal::LangString(index as usize, span)
                    } else {
                        Literal::TypedString(index as usize, span)
                    },
                    1 + n1 + n2,
                )),
                Err(e) => Err(e),
            },
            Err(e) => Err(e),
        }
    } else if s[0] == 4 {
        match parse_varint(skip(s, 1)) {
            Ok((index, n)) => Ok((Literal::StringShort(index as usize), 1 + n)),
            Err(e) => Err(e),
        }
    } else {
        Err(PersistError::UnknownLiteralType(s[0]))
    }
}

/// A literal reads back as written.
pub proof fn lemma_literal_roundtrip(literal: Literal, rest: Seq<u8>)
    ensures
        parse_literal(encode_literal(literal) + rest) == Ok::<(Literal, nat), PersistError>(
            (literal, encode_literal(literal).len()),
        ),
{
    let s = encode_literal(literal) + rest;
    match literal {
        Literal::String(span) => {
            assert(skip(s, 1) =~= encode_span(span) + rest);
            lemma_span_roundtrip(span, rest);
        },
        Literal::LangString(index, span) | Literal::TypedString(index, span) => {
            let a = leb128_encoding(index as u64 as nat);
            assert(skip(s, 1) =~= a + (encode_span(span) + rest));
            lemma_parse_varint_roundtrip(index as u64, encode_span(span) + rest);
            assert(skip(s, 1 + a.len()) =~= encode_span(span) + rest);
            lemma_span_roundtrip(span, rest);
        },
        Literal::StringShort(index) => {
            assert(skip(s, 1) =~= leb128_encoding(index as u64 as nat) + rest);
            lemma_parse_varint_roundtrip(index as u64, rest);
        },
    }
}

impl Literal {
    /// Writes the literal.
    pub fn store(&self, out: &mut Vec<u8>)
        ensures
            final(out)@ == old(out)@ + encode_literal(*self),
    {
        match self {
            Literal::String(span) => {
                out.push(1u8);
                span.store(out);
            },
            Literal::LangString(lang_index, span) => {
                out.push(2u8);
                write_varint(out, *lang_index as u64);
                span.store(out);
            },
            Literal::TypedString(type_index, span) => {
                out.push(3u8);
                write_varint(out, *type_index as u64);
                span.store(out);
            },
            Literal::StringShort(index) => {
                out.push(4u8);
                write_varint(out, *index as u64);
            },
        }
        assert(out@ =~= old(out)@ + encode_literal(*self));
    }

    /// Reads a literal at `pos`: the literal and the position after it.
    pub fn restore(data: &[u8], pos: usize) -> (res: Result<(Literal, usize), PersistError>)
        requires
            pos <= data@.len(),
        ensures
            match parse_literal(skip(data@, pos as nat)) {
                Ok((literal, n)) => res matches Ok((l, p)) && l == literal && p == pos + n && p <= data@.len(),
                Err(e) => res matches Err(e2) && e2 == e,
            },
            res matches Ok((_, next)) ==> pos < next <= data@.len(),
    {
        let ghost s = skip(data@, pos as nat);
        if pos >= data.len() {
            return Err(PersistError::UnexpectedEnd);
        }
        let literal_type = data[pos];
        assert(s[0] == literal_type);
        proof {
            lemma_skip_skip(data@, pos as nat, 1);
        }
        let next = pos + 1;
        if literal_type == 1 {
            let (span, end) = IndexSpan::restore(data, next)?;
            Ok((Literal::String(span), end))
        } else if literal_type == 2 || literal_type == 3 {
            let (index, next2) = read_varint(data, next)?;
            proof {
                lemma_parse_varint_len(skip(data@, next as nat));
                lemma_skip_skip(data@, pos as nat, (next2 - pos) as nat);
            }
            let (span, end) = IndexSpan::restore(data, next2)?;
            if literal_type == 2 {
                Ok((Literal::LangString(index as usize, span), end))
            } else {
                Ok((Literal::TypedString(index as usize, span), end))
            }
        } else if literal_type == 4 {
            let (index, end) = read_varint(data, next)?;
            Ok((Literal::StringShort(index as usize), end))
        } else {
            Err(PersistError::UnknownLiteralType(literal_type))
        }
    }
}

} // verus!
