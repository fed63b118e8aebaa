//! Project file framing: the file header, typed blocks, and zlib
//! compression of block payloads.

use flate2::read::ZlibDecoder;
use flate2::write::ZlibEncoder;
use flate2::Compression;
use std::io::{Read, Write};
use vstd::prelude::*;

use super::{
    read_u16_le, read_u32_le, u16_from_le, u16_le_bytes, u32_from_le, u32_le_bytes, write_u16_le, write_u32_le,
    HeaderType, PersistError, FORMAT_FLAGS, FORMAT_VERSION, HEADER_LENGTH, MAGIC_NUMBER,
};

verus! {

/// The zlib stream (default compression level) that compresses the bytes.
pub uninterp spec fn zlib_compressed(data: Seq<u8>) -> Seq<u8>;

/// What `flate2`'s zlib reader gives for the bytes read to their end: the
/// decompressed bytes, or `None` when reading fails. (A stream that is cut
/// off may still give the bytes decoded so far; nothing here says which
/// inputs fail.)
pub uninterp spec fn zlib_decompressed(data: Seq<u8>) -> Option<Seq<u8>>;

/// `ZlibEncoder::new(Vec::new(), Compression::default())`, `write_all` and
/// `finish`: the zlib stream of the bytes. Compression is lossless: the
/// stream decompresses to the bytes. Writing into a vector does not fail.
#[verifier::external_body]
pub(crate) fn zlib_compress(data: &[u8]) -> (res: Vec<u8>)
    ensures
        res@ == zlib_compressed(data@),
        zlib_decompressed(res@) == Some(data@),
{
    let mut encoder = ZlibEncoder::new(Vec::new(), Compression::default());
    let _ = encoder.write_all(data);
    encoder.finish().unwrap_or_default()
}

/// `ZlibDecoder::new` over the bytes and `read_to_end`: the decompressed
/// bytes, or `None` when decoding fails.
#[verifier::external_body]
pub(crate) fn zlib_decompress(data: &[u8]) -> (res: Option<Vec<u8>>)
    ensures
        res.is_some() == zlib_decompressed(data@).is_some(),
        res.is_some() ==> res.unwrap()@ == zlib_decompressed(data@).unwrap(),
{
    let mut out: Vec<u8> = Vec::new();
    match ZlibDecoder::new(data).read_to_end(&mut out) {
        Ok(_) => Some(out),
        Err(_) => None,
    }
}

/// The file header: magic number, format version, flags and header length,
/// all little endian.
pub open spec fn file_header() -> Seq<u8> {
    u32_le_bytes(MAGIC_NUMBER) + u16_le_bytes(FORMAT_VERSION) + u16_le_bytes(FORMAT_FLAGS) + u16_le_bytes(
        HEADER_LENGTH,
    )
}

/// Writes the file header.
pub fn write_file_header(out: &mut Vec<u8>)
    ensures
        final(out)@ == old(out)@ + file_header(),
{
    write_u32_le(out, MAGIC_NUMBER);
    write_u16_le(out, FORMAT_VERSION);
    write_u16_le(out, FORMAT_FLAGS);
    write_u16_le(out, HEADER_LENGTH);
    assert(out@ =~= old(out)@ + file_header());
}

/// A block: its type code, its size (five prelude bytes and the payload)
/// as a little endian `u32`, then the payload.
pub open spec fn encode_block(header_type: HeaderType, payload: Seq<u8>) -> Seq<u8> {
    seq![header_type.spec_code()] + u32_le_bytes((payload.len() + 5) as u32) + payload
}

/// Writes a block with its prelude.
pub fn write_block(out: &mut Vec<u8>, header_type: HeaderType, payload: &[u8])
    requires
        payload@.len() + 5 <= u32::MAX,
    ensures
        final(out)@ == old(out)@ + encode_block(header_type, payload@),
{
    out.push(header_type.code());
    let size = (payload.len() + 5) as u32;
    write_u32_le(out, size);
    out.extend_from_slice(payload);
    assert(out@ =~= old(out)@ + encode_block(header_type, payload@));
}

/// A block of a known type found in a project file, with the byte range of
/// its payload.
#[derive(Debug, Clone, Copy, PartialEq, Eq, Structural)]
pub struct BlockRef {
    pub header_type: HeaderType,
    pub start: usize,
    pub end: usize,
}

/// The blocks from position `pos` to the end of the file. Reading stops at
/// the end of the data; a prelude cut short is an error, and so is a size
/// smaller than the prelude. Blocks of unknown type are skipped. The payload
/// of a block that runs past the end of the data is what is there.
pub open spec fn parse_blocks_from(data: Seq<u8>, pos: int) -> Result<Seq<BlockRef>, PersistError>
    decreases data.len() - pos,
{
    if pos < 0 || pos >= data.len() {
        Ok(Seq::empty())
    } else if pos + 5 > data.len() {
        Err(PersistError::UnexpectedEnd)
    } else {
        let size = u32_from_le(data.subrange(pos + 1, pos + 5)) as int;
        if size < 5 {
            Err(PersistError::InvalidBlockSize)
        } else {
            let end = pos + size;
            let rest_blocks = if end < data.len() {
                parse_blocks_from(data, end)
            } else {
                Ok(Seq::empty())
            };
            match rest_blocks {
                Ok(rest) => match HeaderType::spec_from_u8(data[pos]) {
                    Some(t) => Ok(
                        seq![BlockRef {
                            header_type: t,
                            start: (pos + 5) as usize,
                            end: (if end < data.len() { end } else { data.len() as int }) as usize,
                        }] + rest,
                    ),
                    None => Ok(rest),
                },
                Err(e) => Err(e),
            }
        }
    }
}

/// The blocks of a project file: the magic number is checked, the header
/// length read, and the blocks after the header listed.
pub open spec fn parse_project_blocks(data: Seq<u8>) -> Result<Seq<BlockRef>, PersistError> {
    if data.len() < 4 {
        Err(PersistError::UnexpectedEnd)
    } else if u32_from_le(data) != MAGIC_NUMBER {
        Err(PersistError::WrongMagicNumber)
    } else if data.len() < 10 {
        Err(PersistError::UnexpectedEnd)
    } else {
        parse_blocks_from(data, u16_from_le(data.subrange(8, 10)) as int)
    }
}

/// Lists the blocks of a project file.
pub fn read_project_blocks(data: &[u8]) -> (res: Result<Vec<BlockRef>, PersistError>)
    ensures
        match parse_project_blocks(data@) {
            Ok(blocks) => res matches Ok(v) && v@ == blocks,
            Err(e) => res == Err::<Vec<BlockRef>, PersistError>(e),
        },
{
    let len = data.len();
    if len < 4 {
        return Err(PersistError::UnexpectedEnd);
    }
    let magic_number = read_u32_le(data);
    if magic_number != MAGIC_NUMBER {
        return Err(PersistError::WrongMagicNumber);
    }
    if len < 10 {
        return Err(PersistError::UnexpectedEnd);
    }
    let header_length = read_u16_le(&data[8..10]);
    assert(data@.subrange(8, 10) =~= data@.subrange(8, 10));
    let mut starts: Vec<usize> = Vec::new();
    let mut blocks: Vec<BlockRef> = Vec::new();
    let mut pos: usize = header_length as usize;
    let ghost start_pos: int = header_length as int;
    assert(parse_project_blocks(data@) == parse_blocks_from(data@, start_pos));
    // First pass: walk the preludes forward, remembering the blocks found.
    while pos < len
        invariant
            len == data@.len(),
            len >= 10,
            parse_project_blocks(data@) == parse_blocks_from(data@, start_pos),
            start_pos <= pos,
            parse_blocks_from(data@, start_pos) == match parse_blocks_from(data@, pos as int) {
                Ok(rest) => Ok::<Seq<BlockRef>, PersistError>(blocks@ + rest),
                Err(e) => Err(e),
            },
        decreases len - pos,
    {
        if len - pos < 5 {
            return Err(PersistError::UnexpectedEnd);
        }
        let size = read_u32_le(&data[pos + 1..pos + 5]);
        assert(data@.subrange(pos + 1, pos + 5) =~= data@.subrange(pos as int + 1, pos as int + 5));
        if size < 5 {
            return Err(PersistError::InvalidBlockSize);
        }
        let room = len - pos;
        let next: usize = if (size as usize) < room {
            pos + size as usize
        } else {
            len
        };
        let ghost end: int = pos + size;
        proof {
            if end >= len {
                assert(parse_blocks_from(data@, next as int) == Ok::<Seq<BlockRef>, PersistError>(Seq::empty()));
            }
        }
        match HeaderType::from_u8(data[pos]) {
            Some(t) => {
                let ghost before = blocks@;
                blocks.push(BlockRef { header_type: t, start: pos + 5, end: next });
                proof {
                    match parse_blocks_from(data@, next as int) {
                        Ok(rest) => {
                            assert(blocks@ + rest =~= before + (seq![blocks@.last()] + rest));
                        },
                        Err(e) => {},
                    }
                }
            },
            None => {},
        }
        pos = next;
    }
    Ok(blocks)
}

/// A sequence of typed payloads written as blocks one after another.
pub open spec fn encode_blocks(blocks: Seq<(HeaderType, Seq<u8>)>) -> Seq<u8>
    decreases blocks.len(),
{
    if blocks.len() == 0 {
        Seq::empty()
    } else {
        encode_block(blocks[0].0, blocks[0].1) + encode_blocks(blocks.drop_first())
    }
}

/// Every payload fits a block.
pub open spec fn payloads_fit(blocks: Seq<(HeaderType, Seq<u8>)>) -> bool {
    forall|i: int| 0 <= i < blocks.len() ==> #[trigger] blocks[i].1.len() + 5 <= u32::MAX
}

/// The blocks that a parse found describe the written blocks: same types,
/// and each payload range holds the payload.
pub open spec fn blocks_read_back(data: Seq<u8>, found: Seq<BlockRef>, blocks: Seq<(HeaderType, Seq<u8>)>) -> bool {
    &&& found.len() == blocks.len()
    &&& forall|i: int|
        0 <= i < blocks.len() ==> {
            &&& #[trigger] found[i].header_type == blocks[i].0
            &&& found[i].start <= found[i].end <= data.len()
            &&& data.subrange(found[i].start as int, found[i].end as int) == blocks[i].1
        }
}

proof fn lemma_blocks_roundtrip_from(prefix: Seq<u8>, blocks: Seq<(HeaderType, Seq<u8>)>)
    requires
        payloads_fit(blocks),
        prefix.len() + encode_blocks(blocks).len() <= usize::MAX,
    ensures
        parse_blocks_from(prefix + encode_blocks(blocks), prefix.len() as int) matches Ok(found)
            && blocks_read_back(prefix + encode_blocks(blocks), found, blocks),
    decreases blocks.len(),
{
    let data = prefix + encode_blocks(blocks);
    let pos = prefix.len() as int;
    if blocks.len() == 0 {
        assert(data.len() == pos);
    } else {
        let (t, payload) = blocks[0];
        let block = encode_block(t, payload);
        let rest_blocks = blocks.drop_first();
        let size = (payload.len() + 5) as u32;
        assert(encode_blocks(blocks) == block + encode_blocks(rest_blocks));
        assert(data =~= (prefix + block) + encode_blocks(rest_blocks));
        assert(data[pos] == t.spec_code());
        assert(data.subrange(pos + 1, pos + 5) =~= u32_le_bytes(size) + data.subrange(pos + 5, pos + 5));
        super::lemma_u32_le_roundtrip(size, data.subrange(pos + 5, pos + 5));
        assert(u32_from_le(data.subrange(pos + 1, pos + 5)) == size);
        assert forall|i: int| 0 <= i < rest_blocks.len() implies #[trigger] rest_blocks[i].1.len() + 5 <= u32::MAX by {
            assert(rest_blocks[i] == blocks[i + 1]);
        }
        lemma_blocks_roundtrip_from(prefix + block, rest_blocks);
        let found_rest = parse_blocks_from(data, pos + size).unwrap();
        super::lemma_header_type_code_roundtrip(t);
        let end = pos + size;
        let first = BlockRef { header_type: t, start: (pos + 5) as usize, end: end as usize };
        assert(data.subrange(pos + 5, end) =~= payload);
        let found = seq![first] + found_rest;
        assert(parse_blocks_from(data, pos) == Ok::<Seq<BlockRef>, PersistError>(found));
        assert forall|i: int| 0 <= i < blocks.len() implies {
            &&& #[trigger] found[i].header_type == blocks[i].0
            &&& found[i].start <= found[i].end <= data.len()
            &&& data.subrange(found[i].start as int, found[i].end as int) == blocks[i].1
        } by {
            if i > 0 {
                assert(found[i] == found_rest[i - 1]);
                assert(blocks[i] == rest_blocks[i - 1]);
            }
        }
    }
}

/// A project file written as the header followed by blocks reads back as
/// those blocks: the same types in the same order, each payload range
/// holding the payload that was written.
pub proof fn lemma_project_blocks_roundtrip(blocks: Seq<(HeaderType, Seq<u8>)>)
    requires
        payloads_fit(blocks),
        file_header().len() + encode_blocks(blocks).len() <= usize::MAX,
    ensures
        parse_project_blocks(file_header() + encode_blocks(blocks)) matches Ok(found) && blocks_read_back(
            file_header() + encode_blocks(blocks),
            found,
            blocks,
        ),
{
    let data = file_header() + encode_blocks(blocks);
    let h = file_header();
    assert(h.len() == 10);
    assert(data.subrange(0, 4) =~= u32_le_bytes(MAGIC_NUMBER));
    super::lemma_u32_le_roundtrip(MAGIC_NUMBER, data.subrange(4, data.len() as int));
    assert(data =~= u32_le_bytes(MAGIC_NUMBER) + data.subrange(4, data.len() as int));
    assert(data.subrange(8, 10) =~= u16_le_bytes(HEADER_LENGTH) + Seq::<u8>::empty());
    super::lemma_u16_le_roundtrip(HEADER_LENGTH, Seq::<u8>::empty());
    lemma_blocks_roundtrip_from(h, blocks);
}

} // verus!
