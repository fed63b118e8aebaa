//! String interning and a contiguous string cache.

use string_interner::backend::StringBackend;
use string_interner::symbol::SymbolU32;
use string_interner::{StringInterner, Symbol};
use vstd::prelude::*;
use vstd::string::StringSliceAdditionalSpecFns;
use vstd::utf8::{
    decode_utf8, encode_utf8, encode_utf8_decode_utf8, encode_utf8_valid_utf8, is_char_boundary,
    is_char_boundary_iff_not_is_continuation_byte, is_char_boundary_start_end_of_seq, length_of_first_scalar,
    pop_first_scalar, valid_utf8, valid_utf8_concat, valid_utf8_split,
};

use crate::IriIndex;

verus! {

/// A string interner of the `string_interner` crate with its default
/// (`u32` symbol) string backend.
#[verifier::external_body]
pub struct Interner {
    inner: StringInterner<StringBackend>,
}

/// The strings held by an interner, in the order of their symbols.
pub uninterp spec fn interned(m: Interner) -> Seq<Seq<char>>;

/// `StringInterner::default`: an interner that holds no string.
#[verifier::external_body]
fn interner_new() -> (res: Interner)
    ensures
        interned(res) == Seq::<Seq<char>>::empty(),
{
    Interner { inner: StringInterner::default() }
}

/// `StringInterner::get_or_intern`: the symbol of the string, appending the
/// string first when it is not held yet; the symbol's `to_usize` is the
/// string's position.
#[verifier::external_body]
fn interner_get_or_intern(m: &mut Interner, s: &str) -> (index: usize)
    requires
        interned(*old(m)).len() < u32::MAX,
    ensures
        interned(*old(m)).contains(s@) ==> interned(*final(m)) == interned(*old(m)) && index < interned(*old(m)).len()
            && interned(*old(m))[index as int] == s@,
        !interned(*old(m)).contains(s@) ==> interned(*final(m)) == interned(*old(m)).push(s@)
            && index == interned(*old(m)).len(),
{
    m.inner.get_or_intern(s).to_usize()
}

/// `SymbolU32::try_from_usize` followed by `StringInterner::resolve`: the
/// string at the position given by the low 32 bits of `index`, if held.
#[verifier::external_body]
fn interner_resolve(m: &Interner, index: usize) -> (res: Option<&str>)
    requires
        (index as u32) < u32::MAX,
    ensures
        res.is_some() == ((index as u32) < interned(*m).len()),
        res.is_some() ==> res.unwrap()@ == interned(*m)[(index as u32) as int],
{
    m.inner.resolve(SymbolU32::try_from_usize(index).unwrap())
}

/// `StringInterner::len`: how many strings are held.
#[verifier::external_body]
fn interner_len(m: &Interner) -> (res: usize)
    ensures
        res == interned(*m).len(),
{
    m.inner.len()
}

/// Assigns each distinct string a dense index, in order of first use.
pub struct StringIndexer {
    pub map: Interner,
}

impl StringIndexer {
    /// The strings held, by index.
    pub open spec fn view(&self) -> Seq<Seq<char>> {
        interned(self.map)
    }

    /// No string is held twice, and the `u32` symbols of the interner
    /// number them all.
    pub open spec fn wf(&self) -> bool {
        &&& self@.no_duplicates()
        &&& self@.len() <= u32::MAX
    }

    pub fn new() -> (res: Self)
        ensures
            res.wf(),
            res@ == Seq::<Seq<char>>::empty(),
    {
        Self { map: interner_new() }
    }

    /// Converts a string to an index, assigning a new index if it's unknown.
    pub fn get_index(&mut self, s: &str) -> (index: IriIndex)
        requires
            old(self).wf(),
            old(self)@.len() < u32::MAX,
        ensures
            final(self).wf(),
            index < final(self)@.len(),
            final(self)@[index as int] == s@,
            old(self)@.contains(s@) ==> final(self)@ == old(self)@,
            !old(self)@.contains(s@) ==> final(self)@ == old(self)@.push(s@),
    {
        let ghost before = self@;
        let index = interner_get_or_intern(&mut self.map, s);
        proof {
            if !before.contains(s@) {
                assert forall|i: int, j: int| 0 <= i < j < self@.len() implies self@[i] != self@[j] by {
                    if j == before.len() {
                        assert(before[i] != s@) by {
                            if before[i] == s@ {
                                assert(before.contains(s@));
                            }
                        }
                    }
                }
            }
        }
        index
    }

    /// Retrieves the string of an index.
    pub fn index_to_str(&self, index: IriIndex) -> (res: Option<&str>)
        requires
            (index as u32) < u32::MAX,
        ensures
            res.is_some() == ((index as u32) < self@.len()),
            res.is_some() ==> res.unwrap()@ == self@[(index as u32) as int],
    {
        interner_resolve(&self.map, index)
    }

    /// Number of strings held.
    pub fn len(&self) -> (res: usize)
        ensures
            res == self@.len(),
    {
        interner_len(&self.map)
    }
}

/// Encoding a concatenation concatenates the encodings.
pub proof fn lemma_encode_utf8_concat(a: Seq<char>, b: Seq<char>)
    ensures
        encode_utf8(a + b) == encode_utf8(a) + encode_utf8(b),
    decreases a.len(),
{
    if a.len() == 0 {
        assert(a + b =~= b);
        assert(encode_utf8(a) =~= Seq::<u8>::empty());
        assert(encode_utf8(a) + encode_utf8(b) =~= encode_utf8(b));
    } else {
        lemma_encode_utf8_concat(a.drop_first(), b);
        assert((a + b).drop_first() =~= a.drop_first() + b);
        assert((a + b)[0] == a[0]);
        assert(encode_utf8(a + b) =~= encode_utf8(a) + encode_utf8(b));
    }
}

/// Stores strings one after another in a single buffer.
pub struct StringCache {
    pub cache: String,
}

/// A span of bytes in a `StringCache`.
#[derive(Debug, Clone, Copy, PartialEq, Eq, Structural)]
pub struct IndexSpan {
    pub start: u32,
    pub len: u32,
}

impl IndexSpan {
    /// End (exclusive) of the span.
    pub open spec fn end(self) -> int {
        self.start + self.len
    }
}

impl StringCache {
    /// The cached text as UTF-8 bytes.
    pub open spec fn bytes(&self) -> Seq<u8> {
        encode_utf8(self.cache@)
    }

    /// The span lies within the cache and on character boundaries.
    pub open spec fn holds_span(&self, span: IndexSpan) -> bool {
        &&& span.end() <= u32::MAX
        &&& span.end() <= self.bytes().len()
        &&& is_char_boundary(self.bytes(), span.start as int)
        &&& is_char_boundary(self.bytes(), span.end())
    }

    pub fn new() -> (res: Self)
        ensures
            res.cache@ == Seq::<char>::empty(),
            res.bytes() == Seq::<u8>::empty(),
    {
        Self { cache: String::new() }
    }

    /// Appends a string and returns the span of its bytes (positions and
    /// lengths are kept as `u32`, so the cache holds at most `u32::MAX` bytes).
    pub fn push_str(&mut self, s: &str) -> (span: IndexSpan)
        requires
            old(self).bytes().len() + s.spec_bytes().len() <= u32::MAX,
        ensures
            final(self).cache@ == old(self).cache@ + s@,
            final(self).bytes() == old(self).bytes() + s.spec_bytes(),
            span.start == old(self).bytes().len(),
            span.len == s.spec_bytes().len(),
            final(self).holds_span(span),
            final(self).bytes().subrange(span.start as int, span.end()) == s.spec_bytes(),
            forall|held: IndexSpan|
                old(self).holds_span(held) ==> #[trigger] final(self).holds_span(held) && final(self).bytes().subrange(
                    held.start as int,
                    held.end(),
                ) == old(self).bytes().subrange(held.start as int, held.end()),
    {
        let end_pos = self.cache.as_str().len() as u32;
        let length = s.len() as u32;
        let ghost before = self.cache@;
        let ghost b1 = encode_utf8(before);
        let ghost b2 = s.spec_bytes();
        self.cache.append(s);
        proof {
            lemma_encode_utf8_concat(before, s@);
            encode_utf8_valid_utf8(before);
            encode_utf8_valid_utf8(s@);
            is_char_boundary_start_end_of_seq(b1);
            lemma_boundary_in_prefix(b1, b2, b1.len() as int);
            is_char_boundary_start_end_of_seq(b1 + b2);
            assert((b1 + b2).subrange(b1.len() as int, (b1 + b2).len() as int) =~= b2);
            assert forall|held: IndexSpan| old(self).holds_span(held) implies #[trigger] self.holds_span(held)
                && self.bytes().subrange(held.start as int, held.end()) == old(self).bytes().subrange(
                held.start as int,
                held.end(),
            ) by {
                lemma_boundary_in_prefix(b1, b2, held.start as int);
                lemma_boundary_in_prefix(b1, b2, held.end());
                assert((b1 + b2).subrange(held.start as int, held.end()) =~= b1.subrange(held.start as int, held.end()));
            }
        }
        IndexSpan { start: end_pos, len: length }
    }

    /// The string stored at a span.
    pub fn get_str(&self, span: IndexSpan) -> (res: &str)
        requires
            self.holds_span(span),
        ensures
            res.spec_bytes() == self.bytes().subrange(span.start as int, span.end()),
            res@ == decode_utf8(self.bytes().subrange(span.start as int, span.end())),
    {
        let start = span.start as usize;
        let end = (span.start + span.len) as usize;
        let text = self.cache.as_str();
        let ghost bytes = self.bytes();
        proof {
            encode_utf8_valid_utf8(self.cache@);
        }
        let (_, tail) = text.split_at(start);
        proof {
            valid_utf8_split(bytes, start as int);
            let tail_bytes = bytes.subrange(start as int, bytes.len() as int);
            assert(tail.spec_bytes() == tail_bytes);
            if end < bytes.len() {
                is_char_boundary_iff_not_is_continuation_byte(bytes, end as int);
                is_char_boundary_iff_not_is_continuation_byte(tail_bytes, end - start);
                assert(tail_bytes[end - start] == bytes[end as int]);
            } else {
                is_char_boundary_start_end_of_seq(tail_bytes);
            }
        }
        let (res, _) = tail.split_at(end - start);
        assert(res.spec_bytes() =~= bytes.subrange(span.start as int, span.end()));
        proof {
            encode_utf8_decode_utf8(res@);
        }
        res
    }
}

/// A span held by a cache is still held, with the same bytes, by any cache
/// whose text extends that cache's text, as any number of later
/// `push_str` calls leave it.
pub proof fn lemma_span_kept_by_extension(before: StringCache, after: StringCache, span: IndexSpan)
    requires
        before.holds_span(span),
        before.cache@.len() <= after.cache@.len(),
        after.cache@.subrange(0, before.cache@.len() as int) == before.cache@,
    ensures
        after.holds_span(span),
        after.bytes().subrange(span.start as int, span.end()) == before.bytes().subrange(span.start as int, span.end()),
{
    let rest = after.cache@.subrange(before.cache@.len() as int, after.cache@.len() as int);
    assert(after.cache@ =~= before.cache@ + rest);
    lemma_encode_utf8_concat(before.cache@, rest);
    let b1 = encode_utf8(before.cache@);
    let b2 = encode_utf8(rest);
    encode_utf8_valid_utf8(before.cache@);
    encode_utf8_valid_utf8(rest);
    lemma_boundary_in_prefix(b1, b2, span.start as int);
    lemma_boundary_in_prefix(b1, b2, span.end());
    assert((b1 + b2).subrange(span.start as int, span.end()) =~= b1.subrange(span.start as int, span.end()));
}

/// A text pushed into the cache reads back from its span, also after any
/// number of later pushes: the span is still held, and `get_str` on it
/// gives the text.
pub proof fn lemma_span_reads_back(pushed: StringCache, later: StringCache, span: IndexSpan, text: Seq<char>)
    requires
        pushed.holds_span(span),
        pushed.bytes().subrange(span.start as int, span.end()) == encode_utf8(text),
        pushed.cache@.len() <= later.cache@.len(),
        later.cache@.subrange(0, pushed.cache@.len() as int) == pushed.cache@,
    ensures
        later.holds_span(span),
        decode_utf8(later.bytes().subrange(span.start as int, span.end())) == text,
{
    lemma_span_kept_by_extension(pushed, later, span);
    encode_utf8_decode_utf8(text);
}

/// A character boundary of a valid prefix is one of the whole sequence.
proof fn lemma_boundary_in_prefix(b1: Seq<u8>, b2: Seq<u8>, i: int)
    requires
        valid_utf8(b1),
        valid_utf8(b2),
        is_char_boundary(b1, i),
    ensures
        valid_utf8(b1 + b2),
        is_char_boundary(b1 + b2, i),
    decreases b1.len(),
{
    valid_utf8_concat(b1, b2);
    if i != 0 {
        let rest = pop_first_scalar(b1);
        assert(pop_first_scalar(b1 + b2) =~= rest + b2);
        assert(length_of_first_scalar(b1 + b2) == length_of_first_scalar(b1));
        lemma_boundary_in_prefix(rest, b2, i - length_of_first_scalar(b1));
    }
}

} // verus!
