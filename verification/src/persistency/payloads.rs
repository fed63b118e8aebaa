//! Payloads of the string blocks: interned strings, the literal cache and
//! the prefix table.

use vstd::prelude::*;
use vstd::string::StringSliceAdditionalSpecFns;
use vstd::utf8::{
    codepoint_width_1, decode_first_scalar, decode_utf8, encode_scalar, encode_utf8, encode_utf8_decode_utf8,
    encode_utf8_first_scalar, encode_utf8_valid_utf8, length_of_first_scalar, valid_utf8,
};

use super::blocks::{encode_block, write_block, zlib_compress, zlib_compressed, zlib_decompress, zlib_decompressed};
use super::{
    encode_len_string, lemma_len_string_roundtrip, lemma_skip_concat, lemma_skip_skip, parse_len_string,
    read_len_string, read_u32_le, skip, u32_from_le, u32_le_bytes, utf8_to_str, write_len_string, write_u32_le,
    HeaderType, PersistError,
};
use crate::string_indexer::{lemma_encode_utf8_concat, StringCache, StringIndexer};

verus! {

/// Byte that ends each string in an indexer block.
pub const UNIT_SEPARATOR: u8 = 0x1F;

/// The indexer payload before compression: each string's UTF-8 bytes
/// followed by the unit separator, in index order.
pub open spec fn indexer_payload(strings: Seq<Seq<char>>) -> Seq<u8>
    decreases strings.len(),
{
    if strings.len() == 0 {
        Seq::empty()
    } else {
        encode_utf8(strings[0]) + seq![UNIT_SEPARATOR] + indexer_payload(strings.drop_first())
    }
}

/// Number of continuation bytes read together with a byte that is not a
/// separator: one for a two byte lead, two for a three byte lead, three for
/// a four byte lead, none otherwise.
pub open spec fn extra_bytes(b: u8) -> int {
    if 0xC0 <= b <= 0xDF {
        1
    } else if 0xE0 <= b <= 0xEF {
        2
    } else if 0xF0 <= b <= 0xF7 {
        3
    } else {
        0
    }
}

/// The strings (as bytes) of a decompressed indexer payload, read from byte
/// `i` on while `buffer` holds the bytes of the string under way. A
/// separator ends a string, which must be valid UTF-8. A lead byte takes its
/// continuation bytes with it, so they are never taken for a separator;
/// reading stops quietly where they are cut short, and a string left
/// without a separator at the end is dropped.
pub open spec fn indexer_strings_from(bytes: Seq<u8>, i: int, buffer: Seq<u8>) -> Result<
    Seq<Seq<u8>>,
    PersistError,
>
    decreases bytes.len() - i,
{
    if i < 0 || i >= bytes.len() {
        Ok(Seq::empty())
    } else if bytes[i] == UNIT_SEPARATOR {
        if valid_utf8(buffer) {
            match indexer_strings_from(bytes, i + 1, Seq::empty()) {
                Ok(rest) => Ok(seq![buffer] + rest),
                Err(e) => Err(e),
            }
        } else {
            Err(PersistError::InvalidUtf8)
        }
    } else {
        let n = 1 + extra_bytes(bytes[i]);
        if i + n > bytes.len() {
            Ok(Seq::empty())
        } else {
            indexer_strings_from(bytes, i + n, buffer + bytes.subrange(i, i + n))
        }
    }
}

/// The strings of a decompressed indexer payload.
pub open spec fn indexer_strings(bytes: Seq<u8>) -> Result<Seq<Seq<char>>, PersistError> {
    match indexer_strings_from(bytes, 0, Seq::empty()) {
        Ok(found) => Ok(found.map_values(|b: Seq<u8>| decode_utf8(b))),
        Err(e) => Err(e),
    }
}

/// Interning one string: it is appended unless already held.
pub open spec fn intern_step(held: Seq<Seq<char>>, s: Seq<char>) -> Seq<Seq<char>> {
    if held.contains(s) {
        held
    } else {
        held.push(s)
    }
}

/// Interning strings one after another.
pub open spec fn intern_all(held: Seq<Seq<char>>, strings: Seq<Seq<char>>) -> Seq<Seq<char>>
    decreases strings.len(),
{
    if strings.len() == 0 {
        held
    } else {
        intern_step(intern_all(held, strings.drop_last()), strings.last())
    }
}

proof fn lemma_intern_all_len(held: Seq<Seq<char>>, strings: Seq<Seq<char>>)
    ensures
        intern_all(held, strings).len() <= held.len() + strings.len(),
    decreases strings.len(),
{
    if strings.len() > 0 {
        lemma_intern_all_len(held, strings.drop_last());
    }
}

/// Interning strings that are all distinct into nothing keeps them as they
/// are.
proof fn lemma_intern_all_distinct(strings: Seq<Seq<char>>)
    requires
        strings.no_duplicates(),
    ensures
        intern_all(Seq::empty(), strings) == strings,
    decreases strings.len(),
{
    if strings.len() > 0 {
        let init = strings.drop_last();
        assert(init.no_duplicates());
        lemma_intern_all_distinct(init);
        assert(!init.contains(strings.last())) by {
            if init.contains(strings.last()) {
                let k = choose|k: int| 0 <= k < init.len() && init[k] == strings.last();
                assert(strings[k] == strings[strings.len() - 1]);
            }
        }
        assert(init.push(strings.last()) =~= strings);
    }
}

impl StringIndexer {
    /// The uncompressed payload of the indexer: its strings in index
    /// order, each followed by the unit separator.
    pub fn payload(&self) -> (res: Vec<u8>)
        requires
            self.wf(),
        ensures
            res@ == indexer_payload(self@),
    {
        let n = self.len();
        let mut out: Vec<u8> = Vec::new();
        let mut i: usize = 0;
        assert(out@ + indexer_payload(self@.subrange(0, n as int)) =~= indexer_payload(self@)) by {
            assert(self@.subrange(0, n as int) =~= self@);
        }
        while i < n
            invariant
                n == self@.len(),
                n <= u32::MAX,
                i <= n,
                out@ + indexer_payload(self@.subrange(i as int, n as int)) == indexer_payload(self@),
            decreases n - i,
        {
            let text = self.index_to_str(i).unwrap();
            let ghost before = out@;
            out.extend_from_slice(text.as_bytes());
            out.push(UNIT_SEPARATOR);
            proof {
                let rest = self@.subrange(i as int, n as int);
                assert(rest[0] == self@[i as int]);
                assert(rest.drop_first() =~= self@.subrange(i + 1, n as int));
                assert(out@ =~= before + encode_utf8(rest[0]) + seq![UNIT_SEPARATOR]);
                assert(before + indexer_payload(rest) =~= out@ + indexer_payload(rest.drop_first()));
            }
            i += 1;
        }
        assert(self@.subrange(n as int, n as int) =~= Seq::<Seq<char>>::empty());
        assert(out@ + Seq::<u8>::empty() =~= out@);
        out
    }

    /// Writes the indexer as a block of the given type: the payload, zlib
    /// compressed. Returns `false`, writing nothing, when the compressed
    /// payload does not fit a block.
    pub fn store(&self, header_type: HeaderType, out: &mut Vec<u8>) -> (written: bool)
        requires
            self.wf(),
        ensures
            written == (zlib_compressed(indexer_payload(self@)).len() + 5 <= u32::MAX),
            written ==> final(out)@ == old(out)@ + encode_block(header_type, zlib_compressed(indexer_payload(self@))),
            !written ==> final(out)@ == old(out)@,
            written ==> zlib_decompressed(zlib_compressed(indexer_payload(self@))) == Some(indexer_payload(self@)),
    {
        let payload = self.payload();
        let compressed = zlib_compress(payload.as_slice());
        if compressed.len() > 0xFFFF_FFFA {
            return false;
        }
        write_block(out, header_type, compressed.as_slice());
        true
    }

    /// Reads an indexer from a decompressed payload: the strings are
    /// interned in the order they come.
    pub fn from_payload(bytes: &[u8]) -> (res: Result<StringIndexer, PersistError>)
        requires
            bytes@.len() < u32::MAX,
        ensures
            match indexer_strings(bytes@) {
                Ok(strings) => res matches Ok(ix) && ix.wf() && ix@ == intern_all(Seq::empty(), strings),
                Err(e) => res matches Err(e2) && e2 == e,
            },
    {
        let len = bytes.len();
        let mut index = StringIndexer::new();
        let mut buffer: Vec<u8> = Vec::new();
        let mut i: usize = 0;
        let mut done = false;
        let ghost mut found: Seq<Seq<u8>> = Seq::empty();
        let ghost all = indexer_strings_from(bytes@, 0, Seq::empty());
        while i < len
            invariant
                len == bytes@.len(),
                len < u32::MAX,
                i <= len,
                done ==> i == len,
                found.len() <= i,
                index.wf(),
                index@ == intern_all(Seq::empty(), found.map_values(|b: Seq<u8>| decode_utf8(b))),
                all == indexer_strings_from(bytes@, 0, Seq::empty()),
                done ==> all == Ok::<Seq<Seq<u8>>, PersistError>(found),
                !done ==> all == match indexer_strings_from(bytes@, i as int, buffer@) {
                    Ok(rest) => Ok::<Seq<Seq<u8>>, PersistError>(found + rest),
                    Err(e) => Err(e),
                },
            decreases len - i,
        {
            let b = bytes[i];
            if b == UNIT_SEPARATOR {
                match utf8_to_str(buffer.as_slice()) {
                    Some(text) => {
                        proof {
                            lemma_intern_all_len(Seq::empty(), found.map_values(|b: Seq<u8>| decode_utf8(b)));
                        }
                        index.get_index(text);
                        proof {
                            encode_utf8_decode_utf8(text@);
                            let old_found = found;
                            found = found.push(buffer@);
                            let decoded = found.map_values(|b: Seq<u8>| decode_utf8(b));
                            assert(decoded.drop_last() =~= old_found.map_values(|b: Seq<u8>| decode_utf8(b)));
                            assert(decoded.last() == text@);
                            match indexer_strings_from(bytes@, i + 1, Seq::empty()) {
                                Ok(rest) => {
                                    assert(old_found + (seq![buffer@] + rest) =~= found + rest);
                                },
                                Err(e) => {},
                            }
                        }
                        buffer = Vec::new();
                        i += 1;
                    },
                    None => {
                        assert(indexer_strings_from(bytes@, i as int, buffer@) == Err::<Seq<Seq<u8>>, PersistError>(
                            PersistError::InvalidUtf8,
                        ));
                        return Err(PersistError::InvalidUtf8);
                    },
                }
            } else {
                let extra: usize = if 0xC0 <= b && b <= 0xDF {
                    1
                } else if 0xE0 <= b && b <= 0xEF {
                    2
                } else if 0xF0 <= b && b <= 0xF7 {
                    3
                } else {
                    0
                };
                if extra > len - i - 1 {
                    proof {
                        assert(found + Seq::<Seq<u8>>::empty() =~= found);
                    }
                    done = true;
                    i = len;
                } else {
                    let end = i + 1 + extra;
                    assert(extra == extra_bytes(b));
                    let ghost before = buffer@;
                    buffer.extend_from_slice(&bytes[i..end]);
                    assert(buffer@ =~= before + bytes@.subrange(i as int, end as int));
                    i = end;
                }
            }
        }
        proof {
            if !done {
                assert(found + Seq::<Seq<u8>>::empty() =~= found);
            }
        }
        Ok(index)
    }

    /// Reads an indexer from the payload of its block: the payload is
    /// decompressed and its strings interned in order.
    pub fn restore(payload: &[u8]) -> (res: Result<StringIndexer, PersistError>)
        ensures
            match zlib_decompressed(payload@) {
                None => res matches Err(e) && e == PersistError::InvalidCompression,
                Some(bytes) => if bytes.len() >= u32::MAX {
                    res matches Err(e) && e == PersistError::BlockTooLarge
                } else {
                    match indexer_strings(bytes) {
                        Ok(strings) => res matches Ok(ix) && ix.wf() && ix@ == intern_all(Seq::empty(), strings),
                        Err(e) => res matches Err(e2) && e2 == e,
                    }
                },
            },
    {
        match zlib_decompress(payload) {
            None => Err(PersistError::InvalidCompression),
            Some(bytes) => {
                if bytes.len() >= 0xFFFF_FFFF {
                    Err(PersistError::BlockTooLarge)
                } else {
                    StringIndexer::from_payload(bytes.as_slice())
                }
            },
        }
    }
}

/// Reading the bytes of a string whose characters hold no unit separator
/// moves past them and adds them to the string under way.
proof fn lemma_indexer_walk(data: Seq<u8>, i: int, buffer: Seq<u8>, chars: Seq<char>)
    requires
        0 <= i,
        i + encode_utf8(chars).len() <= data.len(),
        data.subrange(i, i + encode_utf8(chars).len()) == encode_utf8(chars),
        !chars.contains('\u{1F}'),
    ensures
        indexer_strings_from(data, i, buffer) == indexer_strings_from(
            data,
            i + encode_utf8(chars).len(),
            buffer + encode_utf8(chars),
        ),
    decreases chars.len(),
{
    let enc = encode_utf8(chars);
    if chars.len() == 0 {
        assert(buffer + enc =~= buffer);
    } else {
        let c = chars[0];
        let first = encode_scalar(c as u32);
        let rest = chars.drop_first();
        assert(enc == first + encode_utf8(rest));
        encode_utf8_first_scalar(chars);
        let w = length_of_first_scalar(enc);
        assert(w == first.len());
        assert(data[i] == enc[0]);
        let b = enc[0];
        if 0 <= b <= 0x7f {
            assert(w == 1);
            assert(decode_first_scalar(enc) == codepoint_width_1(b));
            if b == UNIT_SEPARATOR {
                assert(b == 0x1F ==> (b & 0x7F) as u32 == 0x1F) by (bit_vector);
                assert(c as u32 == 0x1F);
                vstd::utf8::char_u32_cast(c, 0x1Fu32);
                vstd::utf8::char_u32_cast('\u{1F}', 0x1Fu32);
                assert(c == '\u{1F}');
                assert(chars.contains(c));
            }
            assert(extra_bytes(b) == 0);
        } else if 0xc0 <= b <= 0xdf {
            assert(w == 2);
        } else if 0xe0 <= b <= 0xef {
            assert(w == 3);
        } else {
            assert(w == 4);
        }
        assert(1 + extra_bytes(b) == w);
        assert(data.subrange(i, i + w) =~= first) by {
            assert forall|k: int| 0 <= k < w implies data.subrange(i, i + w)[k] == first[k] by {
                assert(data.subrange(i, i + enc.len())[k] == enc[k]);
            }
        }
        assert(data.subrange(i + w, i + w + encode_utf8(rest).len()) =~= encode_utf8(rest)) by {
            assert forall|k: int| 0 <= k < encode_utf8(rest).len() implies data.subrange(
                i + w,
                i + w + encode_utf8(rest).len(),
            )[k] == encode_utf8(rest)[k] by {
                assert(data.subrange(i, i + enc.len())[w + k] == enc[w + k]);
            }
        }
        assert(!rest.contains('\u{1F}')) by {
            if rest.contains('\u{1F}') {
                let k = choose|k: int| 0 <= k < rest.len() && rest[k] == '\u{1F}';
                assert(chars[k + 1] == '\u{1F}');
            }
        }
        lemma_indexer_walk(data, i + w, buffer + first, rest);
        assert(buffer + first + encode_utf8(rest) =~= buffer + enc);
    }
}

proof fn lemma_indexer_payload_from(prefix: Seq<u8>, strings: Seq<Seq<char>>)
    requires
        forall|k: int| 0 <= k < strings.len() ==> !(#[trigger] strings[k]).contains('\u{1F}'),
    ensures
        indexer_strings_from(prefix + indexer_payload(strings), prefix.len() as int, Seq::empty()) == Ok::<
            Seq<Seq<u8>>,
            PersistError,
        >(strings.map_values(|s: Seq<char>| encode_utf8(s))),
    decreases strings.len(),
{
    let data = prefix + indexer_payload(strings);
    let i = prefix.len() as int;
    if strings.len() == 0 {
        assert(strings.map_values(|s: Seq<char>| encode_utf8(s)) =~= Seq::<Seq<u8>>::empty());
    } else {
        let s0 = strings[0];
        let enc = encode_utf8(s0);
        let rest = strings.drop_first();
        let next_prefix = prefix + enc + seq![UNIT_SEPARATOR];
        assert(data =~= next_prefix + indexer_payload(rest));
        assert(data.subrange(i, i + enc.len()) =~= enc);
        lemma_indexer_walk(data, i, Seq::empty(), s0);
        assert(Seq::<u8>::empty() + enc =~= enc);
        assert(data[i + enc.len()] == UNIT_SEPARATOR);
        encode_utf8_valid_utf8(s0);
        assert forall|k: int| 0 <= k < rest.len() implies !(#[trigger] rest[k]).contains('\u{1F}') by {
            assert(rest[k] == strings[k + 1]);
        }
        lemma_indexer_payload_from(next_prefix, rest);
        assert(strings.map_values(|s: Seq<char>| encode_utf8(s)) =~= seq![enc] + rest.map_values(
            |s: Seq<char>| encode_utf8(s),
        ));
    }
}

/// An indexer payload reads back as the strings it was made of, as long as
/// no string holds the unit separator character.
pub proof fn lemma_indexer_payload_roundtrip(strings: Seq<Seq<char>>)
    requires
        forall|k: int| 0 <= k < strings.len() ==> !(#[trigger] strings[k]).contains('\u{1F}'),
    ensures
        indexer_strings(indexer_payload(strings)) == Ok::<Seq<Seq<char>>, PersistError>(strings),
{
    lemma_indexer_payload_from(Seq::empty(), strings);
    assert(Seq::<u8>::empty() + indexer_payload(strings) =~= indexer_payload(strings));
    let encoded = strings.map_values(|s: Seq<char>| encode_utf8(s));
    assert forall|k: int| 0 <= k < strings.len() implies decode_utf8(#[trigger] encoded[k]) == strings[k] by {
        encode_utf8_decode_utf8(strings[k]);
    }
    assert(encoded.map_values(|b: Seq<u8>| decode_utf8(b)) =~= strings);
}

/// A stored indexer whose strings hold no unit separator restores to the
/// same strings at the same indices.
pub proof fn lemma_indexer_store_restore(strings: Seq<Seq<char>>)
    requires
        strings.no_duplicates(),
        forall|k: int| 0 <= k < strings.len() ==> !(#[trigger] strings[k]).contains('\u{1F}'),
    ensures
        indexer_strings(indexer_payload(strings)) matches Ok(found) && intern_all(Seq::empty(), found) == strings,
{
    lemma_indexer_payload_roundtrip(strings);
    lemma_intern_all_distinct(strings);
}

impl StringCache {
    /// Writes the literal cache as its block: the cached text, zlib
    /// compressed. Returns `false`, writing nothing, when the compressed
    /// text does not fit a block.
    pub fn store(&self, out: &mut Vec<u8>) -> (written: bool)
        ensures
            written == (zlib_compressed(self.bytes()).len() + 5 <= u32::MAX),
            written ==> final(out)@ == old(out)@ + encode_block(HeaderType::Literals, zlib_compressed(self.bytes())),
            !written ==> final(out)@ == old(out)@,
            written ==> zlib_decompressed(zlib_compressed(self.bytes())) == Some(self.bytes()),
    {
        let compressed = zlib_compress(self.cache.as_str().as_bytes());
        if compressed.len() > 0xFFFF_FFFA {
            return false;
        }
        write_block(out, HeaderType::Literals, compressed.as_slice());
        true
    }

    /// Reads the literal cache from the payload of its block.
    pub fn restore(payload: &[u8]) -> (res: Result<StringCache, PersistError>)
        ensures
            match zlib_decompressed(payload@) {
                None => res matches Err(e) && e == PersistError::InvalidCompression,
                Some(bytes) => if valid_utf8(bytes) {
                    res matches Ok(cache) && cache.bytes() == bytes
                } else {
                    res matches Err(e) && e == PersistError::InvalidUtf8
                },
            },
    {
        match zlib_decompress(payload) {
            None => Err(PersistError::InvalidCompression),
            Some(bytes) => match utf8_to_str(bytes.as_slice()) {
                Some(text) => Ok(StringCache { cache: String::from_str(text) }),
                None => Err(PersistError::InvalidUtf8),
            },
        }
    }
}

/// The prefix table before compression: for each entry its prefix, then
/// its IRI, as strings with their length.
pub open spec fn encode_prefix_pairs(pairs: Seq<(Seq<u8>, Seq<u8>)>) -> Seq<u8>
    decreases pairs.len(),
{
    if pairs.len() == 0 {
        Seq::empty()
    } else {
        encode_len_string(pairs[0].0) + encode_len_string(pairs[0].1) + encode_prefix_pairs(pairs.drop_first())
    }
}

/// `count` prefix entries read from the start of the bytes.
pub open spec fn parse_prefix_pairs(s: Seq<u8>, count: nat) -> Result<Seq<(Seq<u8>, Seq<u8>)>, PersistError>
    decreases count,
{
    if count == 0 {
        Ok(Seq::empty())
    } else {
        match parse_len_string(s) {
            Ok((prefix, n1)) => match parse_len_string(skip(s, n1)) {
                Ok((iri, n2)) => match parse_prefix_pairs(skip(s, n1 + n2), (count - 1) as nat) {
                    Ok(rest) => Ok(seq![(prefix, iri)] + rest),
                    Err(e) => Err(e),
                },
                Err(e) => Err(e),
            },
            Err(e) => Err(e),
        }
    }
}

/// The UTF-8 bytes of each prefix entry.
pub open spec fn prefix_pairs_bytes(pairs: Seq<(String, String)>) -> Seq<(Seq<u8>, Seq<u8>)> {
    pairs.map_values(|p: (String, String)| (encode_utf8(p.0@), encode_utf8(p.1@)))
}

/// The uncompressed prefix table.
pub fn prefix_pairs_payload(pairs: &Vec<(String, String)>) -> (res: Vec<u8>)
    ensures
        res@ == encode_prefix_pairs(prefix_pairs_bytes(pairs@)),
{
    let ghost all = prefix_pairs_bytes(pairs@);
    let mut out: Vec<u8> = Vec::new();
    let mut k: usize = 0;
    assert(all.subrange(0, all.len() as int) =~= all);
    assert(out@ + encode_prefix_pairs(all.subrange(0, all.len() as int)) =~= encode_prefix_pairs(all));
    while k < pairs.len()
        invariant
            all == prefix_pairs_bytes(pairs@),
            k <= pairs@.len(),
            out@ + encode_prefix_pairs(all.subrange(k as int, all.len() as int)) == encode_prefix_pairs(all),
        decreases pairs@.len() - k,
    {
        let ghost before = out@;
        write_len_string(pairs[k].0.as_str(), &mut out);
        write_len_string(pairs[k].1.as_str(), &mut out);
        proof {
            let rest = all.subrange(k as int, all.len() as int);
            assert(rest[0] == all[k as int]);
            assert(rest.drop_first() =~= all.subrange(k + 1, all.len() as int));
            assert(before + encode_prefix_pairs(rest) =~= out@ + encode_prefix_pairs(rest.drop_first()));
        }
        k += 1;
    }
    assert(all.subrange(k as int, all.len() as int) =~= Seq::<(Seq<u8>, Seq<u8>)>::empty());
    assert(out@ + Seq::<u8>::empty() =~= out@);
    out
}

/// Reads `count` prefix entries from decompressed bytes.
pub fn read_prefix_pairs(bytes: &[u8], count: u32) -> (res: Result<Vec<(String, String)>, PersistError>)
    ensures
        match parse_prefix_pairs(bytes@, count as nat) {
            Ok(pairs) => res matches Ok(v) && prefix_pairs_bytes(v@) == pairs,
            Err(e) => res matches Err(e2) && e2 == e,
        },
{
    let len = bytes.len();
    let mut out: Vec<(String, String)> = Vec::new();
    let mut pos: usize = 0;
    let mut k: u32 = 0;
    let ghost all = parse_prefix_pairs(bytes@, count as nat);
    assert(skip(bytes@, 0) =~= bytes@);
    assert(prefix_pairs_bytes(out@) =~= Seq::<(Seq<u8>, Seq<u8>)>::empty());
    assert(all == match parse_prefix_pairs(skip(bytes@, 0), count as nat) {
        Ok(r) => Ok::<Seq<(Seq<u8>, Seq<u8>)>, PersistError>(prefix_pairs_bytes(out@) + r),
        Err(e) => Err(e),
    }) by {
        match parse_prefix_pairs(bytes@, count as nat) {
            Ok(r) => {
                assert(Seq::<(Seq<u8>, Seq<u8>)>::empty() + r =~= r);
            },
            Err(e) => {},
        }
    }
    while k < count
        invariant
            len == bytes@.len(),
            pos <= len,
            k <= count,
            all == parse_prefix_pairs(bytes@, count as nat),
            all == match parse_prefix_pairs(skip(bytes@, pos as nat), (count - k) as nat) {
                Ok(r) => Ok::<Seq<(Seq<u8>, Seq<u8>)>, PersistError>(prefix_pairs_bytes(out@) + r),
                Err(e) => Err(e),
            },
        decreases count - k,
    {
        let ghost s = skip(bytes@, pos as nat);
        let (prefix, pos1) = read_len_string(bytes, pos)?;
        let ghost n1: nat = (pos1 - pos) as nat;
        proof {
            lemma_skip_skip(bytes@, pos as nat, n1);
        }
        let (iri, pos2) = read_len_string(bytes, pos1)?;
        let ghost n2: nat = (pos2 - pos1) as nat;
        proof {
            lemma_skip_skip(bytes@, pos as nat, n1 + n2);
        }
        let ghost before = prefix_pairs_bytes(out@);
        out.push((prefix, iri));
        proof {
            assert(prefix_pairs_bytes(out@) =~= before.push((encode_utf8(out@.last().0@), encode_utf8(out@.last().1@))));
            match parse_prefix_pairs(skip(bytes@, pos2 as nat), (count - k - 1) as nat) {
                Ok(r) => {
                    assert(before + (seq![(encode_utf8(out@.last().0@), encode_utf8(out@.last().1@))] + r)
                        =~= prefix_pairs_bytes(out@) + r);
                },
                Err(e) => {},
            }
        }
        pos = pos2;
        k += 1;
    }
    assert(prefix_pairs_bytes(out@) + Seq::<(Seq<u8>, Seq<u8>)>::empty() =~= prefix_pairs_bytes(out@));
    Ok(out)
}

/// The prefix block: the number of entries as a little endian `u32`, then
/// the zlib compressed table.
pub open spec fn prefix_block_payload(pairs: Seq<(String, String)>) -> Seq<u8> {
    u32_le_bytes(pairs.len() as u32) + zlib_compressed(encode_prefix_pairs(prefix_pairs_bytes(pairs)))
}

/// Writes the prefix table as its block. Returns `false`, writing nothing,
/// when the compressed table does not fit a block.
pub fn store_prefixes(pairs: &Vec<(String, String)>, out: &mut Vec<u8>) -> (written: bool)
    requires
        pairs@.len() <= u32::MAX,
    ensures
        written == (prefix_block_payload(pairs@).len() + 5 <= u32::MAX),
        written ==> final(out)@ == old(out)@ + encode_block(HeaderType::Prefixes, prefix_block_payload(pairs@)),
        written ==> zlib_decompressed(zlib_compressed(encode_prefix_pairs(prefix_pairs_bytes(pairs@)))) == Some(
            encode_prefix_pairs(prefix_pairs_bytes(pairs@)),
        ),
        !written ==> final(out)@ == old(out)@,
{
    let table = prefix_pairs_payload(pairs);
    let compressed = zlib_compress(table.as_slice());
    if compressed.len() > 0xFFFF_FFF6 {
        return false;
    }
    let mut payload: Vec<u8> = Vec::new();
    write_u32_le(&mut payload, pairs.len() as u32);
    payload.extend_from_slice(compressed.as_slice());
    write_block(out, HeaderType::Prefixes, payload.as_slice());
    true
}

/// Reads the prefix table from the payload of its block.
pub fn restore_prefixes(payload: &[u8]) -> (res: Result<Vec<(String, String)>, PersistError>)
    ensures
        payload@.len() < 4 ==> (res matches Err(e) && e == PersistError::UnexpectedEnd),
        payload@.len() >= 4 ==> match zlib_decompressed(skip(payload@, 4)) {
            None => res matches Err(e) && e == PersistError::InvalidCompression,
            Some(bytes) => match parse_prefix_pairs(bytes, u32_from_le(payload@) as nat) {
                Ok(pairs) => res matches Ok(v) && prefix_pairs_bytes(v@) == pairs,
                Err(e) => res matches Err(e2) && e2 == e,
            },
        },
{
    if payload.len() < 4 {
        return Err(PersistError::UnexpectedEnd);
    }
    let count = read_u32_le(payload);
    let compressed = &payload[4..payload.len()];
    assert(compressed@ =~= skip(payload@, 4));
    match zlib_decompress(compressed) {
        None => Err(PersistError::InvalidCompression),
        Some(bytes) => read_prefix_pairs(bytes.as_slice(), count),
    }
}

/// A prefix table reads back as the entries it was written from.
pub proof fn lemma_prefix_pairs_roundtrip(pairs: Seq<(Seq<u8>, Seq<u8>)>, rest: Seq<u8>)
    requires
        forall|k: int|
            0 <= k < pairs.len() ==> valid_utf8((#[trigger] pairs[k]).0) && valid_utf8(pairs[k].1)
                && pairs[k].0.len() <= usize::MAX && pairs[k].1.len() <= usize::MAX,
    ensures
        parse_prefix_pairs(encode_prefix_pairs(pairs) + rest, pairs.len()) == Ok::<
            Seq<(Seq<u8>, Seq<u8>)>,
            PersistError,
        >(pairs),
    decreases pairs.len(),
{
    if pairs.len() > 0 {
        let p = pairs[0].0;
        let iri = pairs[0].1;
        let tail = pairs.drop_first();
        assert forall|k: int| 0 <= k < tail.len() implies valid_utf8((#[trigger] tail[k]).0) && valid_utf8(
            tail[k].1,
        ) && tail[k].0.len() <= usize::MAX && tail[k].1.len() <= usize::MAX by {
            assert(tail[k] == pairs[k + 1]);
        }
        lemma_prefix_pairs_roundtrip(tail, rest);
        lemma_prefix_pair_step(p, iri, encode_prefix_pairs(tail) + rest);
        let s = encode_prefix_pairs(pairs) + rest;
        assert(s =~= encode_len_string(p) + (encode_len_string(iri) + (encode_prefix_pairs(tail) + rest)));
        let n1 = encode_len_string(p).len();
        let n2 = encode_len_string(iri).len();
        lemma_parse_prefix_pairs_unfold(s, pairs.len(), p, iri, n1, n2, tail);
        assert(seq![(p, iri)] + tail =~= pairs);
    } else {
        assert(pairs =~= Seq::<(Seq<u8>, Seq<u8>)>::empty());
    }
}

proof fn lemma_parse_prefix_pairs_unfold(
    s: Seq<u8>,
    count: nat,
    p: Seq<u8>,
    iri: Seq<u8>,
    n1: nat,
    n2: nat,
    tail: Seq<(Seq<u8>, Seq<u8>)>,
)
    requires
        count > 0,
        parse_len_string(s) == Ok::<(Seq<u8>, nat), PersistError>((p, n1)),
        parse_len_string(skip(s, n1)) == Ok::<(Seq<u8>, nat), PersistError>((iri, n2)),
        parse_prefix_pairs(skip(s, n1 + n2), (count - 1) as nat) == Ok::<Seq<(Seq<u8>, Seq<u8>)>, PersistError>(
            tail,
        ),
    ensures
        parse_prefix_pairs(s, count) == Ok::<Seq<(Seq<u8>, Seq<u8>)>, PersistError>(seq![(p, iri)] + tail),
{
}

proof fn lemma_prefix_pair_step(p: Seq<u8>, iri: Seq<u8>, tail: Seq<u8>)
    requires
        valid_utf8(p),
        valid_utf8(iri),
        p.len() <= usize::MAX,
        iri.len() <= usize::MAX,
    ensures
        ({
            let s = encode_len_string(p) + (encode_len_string(iri) + tail);
            &&& parse_len_string(s) == Ok::<(Seq<u8>, nat), PersistError>((p, encode_len_string(p).len()))
            &&& parse_len_string(skip(s, encode_len_string(p).len())) == Ok::<(Seq<u8>, nat), PersistError>(
                (iri, encode_len_string(iri).len()),
            )
            &&& skip(s, encode_len_string(p).len() + encode_len_string(iri).len()) == tail
        }),
{
    let a = encode_len_string(p);
    let b = encode_len_string(iri);
    let s = a + (b + tail);
    lemma_len_string_roundtrip(p, b + tail);
    lemma_skip_concat(a, b + tail);
    lemma_len_string_roundtrip(iri, tail);
    assert(skip(s, a.len() + b.len()) =~= tail);
}

} // verus!
