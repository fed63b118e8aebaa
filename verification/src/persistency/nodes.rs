//! The nodes block: every node with its IRI, flags, types, literal
//! properties and references.

use vstd::prelude::*;
use vstd::string::StringSliceAdditionalSpecFns;
use vstd::utf8::{encode_utf8, valid_utf8};

use super::blocks::{encode_block, write_block};
use super::{
    encode_len_string, encode_literal, leb128_encoding, lemma_len_string_roundtrip, lemma_literal_roundtrip,
    lemma_parse_varint_roundtrip, lemma_skip_concat, lemma_skip_skip, parse_len_string, parse_literal,
    parse_varint, read_len_string, read_varint, skip, write_len_string, write_varint, HeaderType, PersistError,
};
use crate::nobject::{Literal, NObject, NObjectView, PredicateLiteral, PredicateReference};
use crate::IriIndex;

verus! {

// ---------------------------------------------------------------------------
// Lists: a varint count, then the items.

/// `count` items read one after another by `item`: the items and the
/// number of bytes they take.
pub open spec fn parse_items<T>(
    s: Seq<u8>,
    count: nat,
    item: spec_fn(Seq<u8>) -> Result<(T, nat), PersistError>,
) -> Result<(Seq<T>, nat), PersistError>
    decreases count,
{
    if count == 0 {
        Ok((Seq::empty(), 0))
    } else {
        match item(s) {
            Ok((x, n)) => match parse_items(skip(s, n), (count - 1) as nat, item) {
                Ok((xs, m)) => Ok((seq![x] + xs, n + m)),
                Err(e) => Err(e),
            },
            Err(e) => Err(e),
        }
    }
}

/// A list: its length as a varint, then its items.
pub open spec fn parse_list<T>(s: Seq<u8>, item: spec_fn(Seq<u8>) -> Result<(T, nat), PersistError>) -> Result<
    (Seq<T>, nat),
    PersistError,
> {
    match parse_varint(s) {
        Ok((count, n)) => match parse_items(skip(s, n), count as nat, item) {
            Ok((xs, m)) => Ok((xs, n + m)),
            Err(e) => Err(e),
        },
        Err(e) => Err(e),
    }
}

pub open spec fn encode_items<T>(xs: Seq<T>, enc: spec_fn(T) -> Seq<u8>) -> Seq<u8>
    decreases xs.len(),
{
    if xs.len() == 0 {
        Seq::empty()
    } else {
        enc(xs[0]) + encode_items(xs.drop_first(), enc)
    }
}

pub open spec fn encode_list<T>(xs: Seq<T>, enc: spec_fn(T) -> Seq<u8>) -> Seq<u8> {
    leb128_encoding(xs.len()) + encode_items(xs, enc)
}

/// Items written by `enc` read back by `item` whatever follows them.
pub open spec fn codec_roundtrips<T>(
    xs: Seq<T>,
    enc: spec_fn(T) -> Seq<u8>,
    item: spec_fn(Seq<u8>) -> Result<(T, nat), PersistError>,
) -> bool {
    forall|i: int, rest: Seq<u8>|
        0 <= i < xs.len() ==> #[trigger] item(enc(xs[i]) + rest) == Ok::<(T, nat), PersistError>(
            (xs[i], enc(xs[i]).len()),
        )
}

proof fn lemma_items_roundtrip<T>(
    xs: Seq<T>,
    enc: spec_fn(T) -> Seq<u8>,
    item: spec_fn(Seq<u8>) -> Result<(T, nat), PersistError>,
    rest: Seq<u8>,
)
    requires
        codec_roundtrips(xs, enc, item),
    ensures
        parse_items(encode_items(xs, enc) + rest, xs.len(), item) == Ok::<(Seq<T>, nat), PersistError>(
            (xs, encode_items(xs, enc).len()),
        ),
    decreases xs.len(),
{
    if xs.len() == 0 {
        assert(xs =~= Seq::<T>::empty());
    } else {
        let tail = xs.drop_first();
        let s = encode_items(xs, enc) + rest;
        let first = enc(xs[0]);
        assert(s =~= first + (encode_items(tail, enc) + rest));
        assert(item(first + (encode_items(tail, enc) + rest)) == Ok::<(T, nat), PersistError>((xs[0], first.len())));
        lemma_skip_concat(first, encode_items(tail, enc) + rest);
        assert forall|i: int, r: Seq<u8>| 0 <= i < tail.len() implies #[trigger] item(enc(tail[i]) + r) == Ok::<
            (T, nat),
            PersistError,
        >((tail[i], enc(tail[i]).len())) by {
            assert(tail[i] == xs[i + 1]);
            assert(item(enc(xs[i + 1]) + r) == Ok::<(T, nat), PersistError>((xs[i + 1], enc(xs[i + 1]).len())));
        }
        lemma_items_roundtrip(tail, enc, item, rest);
        assert(seq![xs[0]] + tail =~= xs);
    }
}

/// A list reads back as written when each item does.
pub proof fn lemma_list_roundtrip<T>(
    xs: Seq<T>,
    enc: spec_fn(T) -> Seq<u8>,
    item: spec_fn(Seq<u8>) -> Result<(T, nat), PersistError>,
    rest: Seq<u8>,
)
    requires
        codec_roundtrips(xs, enc, item),
        xs.len() <= u64::MAX,
    ensures
        parse_list(encode_list(xs, enc) + rest, item) == Ok::<(Seq<T>, nat), PersistError>(
            (xs, encode_list(xs, enc).len()),
        ),
{
    let count = xs.len() as u64;
    let head = leb128_encoding(count as nat);
    let s = encode_list(xs, enc) + rest;
    assert(s =~= head + (encode_items(xs, enc) + rest));
    lemma_parse_varint_roundtrip(count, encode_items(xs, enc) + rest);
    lemma_skip_concat(head, encode_items(xs, enc) + rest);
    lemma_items_roundtrip(xs, enc, item, rest);
}

// ---------------------------------------------------------------------------
// Items of the node lists.

/// An index: a varint taken as `usize`.
pub open spec fn parse_index(s: Seq<u8>) -> Result<(usize, nat), PersistError> {
    match parse_varint(s) {
        Ok((v, n)) => Ok((v as usize, n)),
        Err(e) => Err(e),
    }
}

pub open spec fn index_item() -> spec_fn(Seq<u8>) -> Result<(usize, nat), PersistError> {
    |s: Seq<u8>| parse_index(s)
}

pub open spec fn encode_index(i: usize) -> Seq<u8> {
    leb128_encoding(i as u64 as nat)
}

pub open spec fn index_enc() -> spec_fn(usize) -> Seq<u8> {
    |i: usize| encode_index(i)
}

/// A reference: the predicate index, then the index of the other node.
pub open spec fn parse_reference(s: Seq<u8>) -> Result<(PredicateReference, nat), PersistError> {
    match parse_index(s) {
        Ok((predicate, n1)) => match parse_index(skip(s, n1)) {
            Ok((node, n2)) => Ok(((predicate, node), n1 + n2)),
            Err(e) => Err(e),
        },
        Err(e) => Err(e),
    }
}

pub open spec fn reference_item() -> spec_fn(Seq<u8>) -> Result<(PredicateReference, nat), PersistError> {
    |s: Seq<u8>| parse_reference(s)
}

pub open spec fn encode_reference(r: PredicateReference) -> Seq<u8> {
    encode_index(r.0) + encode_index(r.1)
}

pub open spec fn reference_enc() -> spec_fn(PredicateReference) -> Seq<u8> {
    |r: PredicateReference| encode_reference(r)
}

/// A literal property: the predicate index, then the literal.
pub open spec fn parse_property(s: Seq<u8>) -> Result<(PredicateLiteral, nat), PersistError> {
    match parse_index(s) {
        Ok((predicate, n1)) => match parse_literal(skip(s, n1)) {
            Ok((literal, n2)) => Ok(((predicate, literal), n1 + n2)),
            Err(e) => Err(e),
        },
        Err(e) => Err(e),
    }
}

pub open spec fn property_item() -> spec_fn(Seq<u8>) -> Result<(PredicateLiteral, nat), PersistError> {
    |s: Seq<u8>| parse_property(s)
}

pub open spec fn encode_property(p: PredicateLiteral) -> Seq<u8> {
    encode_index(p.0) + encode_literal(p.1)
}

pub open spec fn property_enc() -> spec_fn(PredicateLiteral) -> Seq<u8> {
    |p: PredicateLiteral| encode_property(p)
}

proof fn lemma_index_roundtrip(i: usize, rest: Seq<u8>)
    ensures
        parse_index(encode_index(i) + rest) == Ok::<(usize, nat), PersistError>((i, encode_index(i).len())),
{
    lemma_parse_varint_roundtrip(i as u64, rest);
}

proof fn lemma_index_codec(xs: Seq<usize>)
    ensures
        codec_roundtrips(xs, index_enc(), index_item()),
{
    assert forall|i: int, rest: Seq<u8>| 0 <= i < xs.len() implies #[trigger] index_item()(index_enc()(xs[i]) + rest)
        == Ok::<(usize, nat), PersistError>((xs[i], index_enc()(xs[i]).len())) by {
        lemma_index_roundtrip(xs[i], rest);
    }
}

proof fn lemma_reference_codec(xs: Seq<PredicateReference>)
    ensures
        codec_roundtrips(xs, reference_enc(), reference_item()),
{
    assert forall|i: int, rest: Seq<u8>| 0 <= i < xs.len() implies #[trigger] reference_item()(
        reference_enc()(xs[i]) + rest,
    ) == Ok::<(PredicateReference, nat), PersistError>((xs[i], reference_enc()(xs[i]).len())) by {
        let (p, n) = xs[i];
        let a = encode_index(p);
        let b = encode_index(n);
        let s = encode_reference(xs[i]) + rest;
        assert(s =~= a + (b + rest));
        lemma_index_roundtrip(p, b + rest);
        lemma_skip_concat(a, b + rest);
        lemma_index_roundtrip(n, rest);
    }
}

proof fn lemma_property_codec(xs: Seq<PredicateLiteral>)
    ensures
        codec_roundtrips(xs, property_enc(), property_item()),
{
    assert forall|i: int, rest: Seq<u8>| 0 <= i < xs.len() implies #[trigger] property_item()(
        property_enc()(xs[i]) + rest,
    ) == Ok::<(PredicateLiteral, nat), PersistError>((xs[i], property_enc()(xs[i]).len())) by {
        let (p, l) = xs[i];
        let a = encode_index(p);
        let b = encode_literal(l);
        let s = encode_property(xs[i]) + rest;
        assert(s =~= a + (b + rest));
        lemma_index_roundtrip(p, b + rest);
        lemma_skip_concat(a, b + rest);
        lemma_literal_roundtrip(l, rest);
    }
}

// ---------------------------------------------------------------------------
// Reading and writing lists.

/// Facts of one step of reading a list: reading the first of `count`
/// items and then the others is reading them all.
proof fn lemma_items_step<T>(
    data: Seq<u8>,
    pos: nat,
    next: nat,
    count: nat,
    item: spec_fn(Seq<u8>) -> Result<(T, nat), PersistError>,
    x: T,
)
    requires
        count > 0,
        pos <= next <= data.len(),
        item(skip(data, pos)) == Ok::<(T, nat), PersistError>((x, (next - pos) as nat)),
    ensures
        parse_items(skip(data, pos), count, item) == match parse_items(skip(data, next), (count - 1) as nat, item) {
            Ok((xs, m)) => Ok::<(Seq<T>, nat), PersistError>((seq![x] + xs, ((next - pos) + m) as nat)),
            Err(e) => Err(e),
        },
{
    lemma_skip_skip(data, pos, (next - pos) as nat);
}

/// What is left to read of a list, given what was read so far.
pub open spec fn items_rest<T>(
    data: Seq<u8>,
    start: nat,
    pos: nat,
    found: Seq<T>,
    left: nat,
    item: spec_fn(Seq<u8>) -> Result<(T, nat), PersistError>,
) -> Result<(Seq<T>, nat), PersistError> {
    match parse_items(skip(data, pos), left, item) {
        Ok((xs, m)) => Ok((found + xs, ((pos - start) + m) as nat)),
        Err(e) => Err(e),
    }
}

proof fn lemma_items_rest_step<T>(
    data: Seq<u8>,
    start: nat,
    pos: nat,
    next: nat,
    found: Seq<T>,
    left: nat,
    item: spec_fn(Seq<u8>) -> Result<(T, nat), PersistError>,
    x: T,
)
    requires
        left > 0,
        start <= pos <= next <= data.len(),
        item(skip(data, pos)) == Ok::<(T, nat), PersistError>((x, (next - pos) as nat)),
    ensures
        items_rest(data, start, pos, found, left, item) == items_rest(
            data,
            start,
            next,
            found.push(x),
            (left - 1) as nat,
            item,
        ),
{
    lemma_items_step(data, pos, next, left, item, x);
    match parse_items(skip(data, next), (left - 1) as nat, item) {
        Ok((xs, m)) => {
            assert(found + (seq![x] + xs) =~= found.push(x) + xs);
        },
        Err(e) => {},
    }
}

proof fn lemma_items_rest_start<T>(
    data: Seq<u8>,
    start: nat,
    count: nat,
    item: spec_fn(Seq<u8>) -> Result<(T, nat), PersistError>,
)
    requires
        start <= data.len(),
    ensures
        items_rest(data, start, start, Seq::<T>::empty(), count, item) == parse_items(skip(data, start), count, item),
{
    match parse_items(skip(data, start), count, item) {
        Ok((xs, m)) => {
            assert(Seq::<T>::empty() + xs =~= xs);
        },
        Err(e) => {},
    }
}

proof fn lemma_items_rest_end<T>(
    data: Seq<u8>,
    start: nat,
    pos: nat,
    found: Seq<T>,
    item: spec_fn(Seq<u8>) -> Result<(T, nat), PersistError>,
)
    requires
        start <= pos,
    ensures
        items_rest(data, start, pos, found, 0, item) == Ok::<(Seq<T>, nat), PersistError>((found, (pos - start) as nat)),
{
    assert(found + Seq::<T>::empty() =~= found);
}

proof fn lemma_items_rest_err<T>(
    data: Seq<u8>,
    start: nat,
    pos: nat,
    found: Seq<T>,
    left: nat,
    item: spec_fn(Seq<u8>) -> Result<(T, nat), PersistError>,
    e: PersistError,
)
    requires
        left > 0,
        item(skip(data, pos)) == Err::<(T, nat), PersistError>(e),
    ensures
        items_rest(data, start, pos, found, left, item) == Err::<(Seq<T>, nat), PersistError>(e),
{
}

/// Writes a list of indices.
pub fn write_index_list(out: &mut Vec<u8>, v: &Vec<IriIndex>)
    ensures
        final(out)@ == old(out)@ + encode_list(v@, index_enc()),
{
    write_varint(out, v.len() as u64);
    let ghost head = out@;
    let mut k: usize = 0;
    assert(v@.subrange(0, v@.len() as int) =~= v@);
    while k < v.len()
        invariant
            k <= v@.len(),
            head == old(out)@ + leb128_encoding(v@.len()),
            out@ + encode_items(v@.subrange(k as int, v@.len() as int), index_enc()) == head + encode_items(
                v@,
                index_enc(),
            ),
        decreases v@.len() - k,
    {
        let ghost before = out@;
        write_varint(out, v[k] as u64);
        proof {
            let rest = v@.subrange(k as int, v@.len() as int);
            assert(rest[0] == v@[k as int]);
            assert(rest.drop_first() =~= v@.subrange(k + 1, v@.len() as int));
            assert(before + encode_items(rest, index_enc()) =~= out@ + encode_items(rest.drop_first(), index_enc()));
        }
        k += 1;
    }
    proof {
        assert(v@.subrange(k as int, v@.len() as int) =~= Seq::<IriIndex>::empty());
        assert(out@ + Seq::<u8>::empty() =~= out@);
    }
}

/// Writes a list of references.
pub fn write_reference_list(out: &mut Vec<u8>, v: &Vec<PredicateReference>)
    ensures
        final(out)@ == old(out)@ + encode_list(v@, reference_enc()),
{
    write_varint(out, v.len() as u64);
    let ghost head = out@;
    let mut k: usize = 0;
    assert(v@.subrange(0, v@.len() as int) =~= v@);
    while k < v.len()
        invariant
            k <= v@.len(),
            head == old(out)@ + leb128_encoding(v@.len()),
            out@ + encode_items(v@.subrange(k as int, v@.len() as int), reference_enc()) == head + encode_items(
                v@,
                reference_enc(),
            ),
        decreases v@.len() - k,
    {
        let ghost before = out@;
        write_varint(out, v[k].0 as u64);
        write_varint(out, v[k].1 as u64);
        proof {
            let rest = v@.subrange(k as int, v@.len() as int);
            assert(rest[0] == v@[k as int]);
            assert(rest.drop_first() =~= v@.subrange(k + 1, v@.len() as int));
            assert(before + encode_items(rest, reference_enc()) =~= out@ + encode_items(
                rest.drop_first(),
                reference_enc(),
            ));
        }
        k += 1;
    }
    proof {
        assert(v@.subrange(k as int, v@.len() as int) =~= Seq::<PredicateReference>::empty());
        assert(out@ + Seq::<u8>::empty() =~= out@);
    }
}

/// Writes a list of literal properties.
pub fn write_property_list(out: &mut Vec<u8>, v: &Vec<PredicateLiteral>)
    ensures
        final(out)@ == old(out)@ + encode_list(v@, property_enc()),
{
    write_varint(out, v.len() as u64);
    let ghost head = out@;
    let mut k: usize = 0;
    assert(v@.subrange(0, v@.len() as int) =~= v@);
    while k < v.len()
        invariant
            k <= v@.len(),
            head == old(out)@ + leb128_encoding(v@.len()),
            out@ + encode_items(v@.subrange(k as int, v@.len() as int), property_enc()) == head + encode_items(
                v@,
                property_enc(),
            ),
        decreases v@.len() - k,
    {
        let ghost before = out@;
        write_varint(out, v[k].0 as u64);
        v[k].1.store(out);
        proof {
            let rest = v@.subrange(k as int, v@.len() as int);
            assert(rest[0] == v@[k as int]);
            assert(rest.drop_first() =~= v@.subrange(k + 1, v@.len() as int));
            assert(before + encode_items(rest, property_enc()) =~= out@ + encode_items(
                rest.drop_first(),
                property_enc(),
            ));
        }
        k += 1;
    }
    proof {
        assert(v@.subrange(k as int, v@.len() as int) =~= Seq::<PredicateLiteral>::empty());
        assert(out@ + Seq::<u8>::empty() =~= out@);
    }
}

/// Reads an index at `pos`.
fn read_index(data: &[u8], pos: usize) -> (res: Result<(IriIndex, usize), PersistError>)
    requires
        pos <= data@.len(),
    ensures
        match parse_index(skip(data@, pos as nat)) {
            Ok((item, n)) => res matches Ok((x, p)) && x == item && p == pos + n && p <= data@.len(),
            Err(e) => res matches Err(e2) && e2 == e,
        },
{
    let (v, next) = read_varint(data, pos)?;
    Ok((v as IriIndex, next))
}

/// Reads a list of indices at `pos`: the list and the position after it.
pub fn read_index_list(data: &[u8], pos: usize) -> (res: Result<(Vec<IriIndex>, usize), PersistError>)
    requires
        pos <= data@.len(),
    ensures
        match parse_list(skip(data@, pos as nat), index_item()) {
            Ok((xs, n)) => res matches Ok((v, p)) && v@ == xs && p == pos + n && p <= data@.len(),
            Err(e) => res matches Err(e2) && e2 == e,
        },
{
    let (count, start) = read_varint(data, pos)?;
    proof {
        lemma_skip_skip(data@, pos as nat, (start - pos) as nat);
        lemma_items_rest_start(data@, start as nat, count as nat, index_item());
    }
    let mut v: Vec<IriIndex> = Vec::new();
    let mut p: usize = start;
    let mut k: u64 = 0;
    let ghost all = parse_items(skip(data@, start as nat), count as nat, index_item());
    while k < count
        invariant
            pos < start <= p <= data@.len(),
            k <= count,
            all == parse_items(skip(data@, start as nat), count as nat, index_item()),
            parse_list(skip(data@, pos as nat), index_item()) == match all {
                Ok((xs, m)) => Ok::<(Seq<_>, nat), PersistError>((xs, ((start - pos) + m) as nat)),
                Err(e) => Err(e),
            },
            all == items_rest(data@, start as nat, p as nat, v@, (count - k) as nat, index_item()),
        decreases count - k,
    {
        let (x, next) = match read_index(data, p) {
            Ok(r) => r,
            Err(e) => {
                proof {
                    lemma_items_rest_err(data@, start as nat, p as nat, v@, (count - k) as nat, index_item(), e);
                }
                return Err(e);
            },
        };
        proof {
            lemma_items_rest_step(data@, start as nat, p as nat, next as nat, v@, (count - k) as nat, index_item(), x);
        }
        v.push(x);
        p = next;
        k += 1;
    }
    proof {
        lemma_items_rest_end(data@, start as nat, p as nat, v@, index_item());
    }
    Ok((v, p))
}

/// Reads a reference at `pos`.
fn read_reference(data: &[u8], pos: usize) -> (res: Result<(PredicateReference, usize), PersistError>)
    requires
        pos <= data@.len(),
    ensures
        match parse_reference(skip(data@, pos as nat)) {
            Ok((item, n)) => res matches Ok((x, p)) && x == item && p == pos + n && p <= data@.len(),
            Err(e) => res matches Err(e2) && e2 == e,
        },
{
    let (predicate, next) = read_index(data, pos)?;
    proof {
        lemma_skip_skip(data@, pos as nat, (next - pos) as nat);
    }
    let (node, end) = read_index(data, next)?;
    Ok(((predicate, node), end))
}

/// Reads a list of references at `pos`: the list and the position after it.
pub fn read_reference_list(data: &[u8], pos: usize) -> (res: Result<(Vec<PredicateReference>, usize), PersistError>)
    requires
        pos <= data@.len(),
    ensures
        match parse_list(skip(data@, pos as nat), reference_item()) {
            Ok((xs, n)) => res matches Ok((v, p)) && v@ == xs && p == pos + n && p <= data@.len(),
            Err(e) => res matches Err(e2) && e2 == e,
        },
{
    let (count, start) = read_varint(data, pos)?;
    proof {
        lemma_skip_skip(data@, pos as nat, (start - pos) as nat);
        lemma_items_rest_start(data@, start as nat, count as nat, reference_item());
    }
    let mut v: Vec<PredicateReference> = Vec::new();
    let mut p: usize = start;
    let mut k: u64 = 0;
    let ghost all = parse_items(skip(data@, start as nat), count as nat, reference_item());
    while k < count
        invariant
            pos < start <= p <= data@.len(),
            k <= count,
            all == parse_items(skip(data@, start as nat), count as nat, reference_item()),
            parse_list(skip(data@, pos as nat), reference_item()) == match all {
                Ok((xs, m)) => Ok::<(Seq<_>, nat), PersistError>((xs, ((start - pos) + m) as nat)),
                Err(e) => Err(e),
            },
            all == items_rest(data@, start as nat, p as nat, v@, (count - k) as nat, reference_item()),
        decreases count - k,
    {
        let (x, next) = match read_reference(data, p) {
            Ok(r) => r,
            Err(e) => {
                proof {
                    lemma_items_rest_err(data@, start as nat, p as nat, v@, (count - k) as nat, reference_item(), e);
                }
                return Err(e);
            },
        };
        proof {
            lemma_items_rest_step(
                data@,
                start as nat,
                p as nat,
                next as nat,
                v@,
                (count - k) as nat,
                reference_item(),
                x,
            );
        }
        v.push(x);
        p = next;
        k += 1;
    }
    proof {
        lemma_items_rest_end(data@, start as nat, p as nat, v@, reference_item());
    }
    Ok((v, p))
}

/// Reads a literal property at `pos`.
fn read_property(data: &[u8], pos: usize) -> (res: Result<(PredicateLiteral, usize), PersistError>)
    requires
        pos <= data@.len(),
    ensures
        match parse_property(skip(data@, pos as nat)) {
            Ok((item, n)) => res matches Ok((x, p)) && x == item && p == pos + n && p <= data@.len(),
            Err(e) => res matches Err(e2) && e2 == e,
        },
{
    let (predicate, next) = read_index(data, pos)?;
    proof {
        lemma_skip_skip(data@, pos as nat, (next - pos) as nat);
    }
    let (literal, end) = Literal::restore(data, next)?;
    Ok(((predicate, literal), end))
}

/// Reads a list of literal properties at `pos`: the list and the position
/// after it.
pub fn read_property_list(data: &[u8], pos: usize) -> (res: Result<(Vec<PredicateLiteral>, usize), PersistError>)
    requires
        pos <= data@.len(),
    ensures
        match parse_list(skip(data@, pos as nat), property_item()) {
            Ok((xs, n)) => res matches Ok((v, p)) && v@ == xs && p == pos + n && p <= data@.len(),
            Err(e) => res matches Err(e2) && e2 == e,
        },
{
    let (count, start) = read_varint(data, pos)?;
    proof {
        lemma_skip_skip(data@, pos as nat, (start - pos) as nat);
        lemma_items_rest_start(data@, start as nat, count as nat, property_item());
    }
    let mut v: Vec<PredicateLiteral> = Vec::new();
    let mut p: usize = start;
    let mut k: u64 = 0;
    let ghost all = parse_items(skip(data@, start as nat), count as nat, property_item());
    while k < count
        invariant
            pos < start <= p <= data@.len(),
            k <= count,
            all == parse_items(skip(data@, start as nat), count as nat, property_item()),
            parse_list(skip(data@, pos as nat), property_item()) == match all {
                Ok((xs, m)) => Ok::<(Seq<_>, nat), PersistError>((xs, ((start - pos) + m) as nat)),
                Err(e) => Err(e),
            },
            all == items_rest(data@, start as nat, p as nat, v@, (count - k) as nat, property_item()),
        decreases count - k,
    {
        let (x, next) = match read_property(data, p) {
            Ok(r) => r,
            Err(e) => {
                proof {
                    lemma_items_rest_err(data@, start as nat, p as nat, v@, (count - k) as nat, property_item(), e);
                }
                return Err(e);
            },
        };
        proof {
            lemma_items_rest_step(
                data@,
                start as nat,
                p as nat,
                next as nat,
                v@,
                (count - k) as nat,
                property_item(),
                x,
            );
        }
        v.push(x);
        p = next;
        k += 1;
    }
    proof {
        lemma_items_rest_end(data@, start as nat, p as nat, v@, property_item());
    }
    Ok((v, p))
}

// ---------------------------------------------------------------------------
// Nodes.

/// The flags byte of a node: bit 0 for a blank node, bit 1 for a node that
/// is the subject of some triple.
pub open spec fn node_flags(node: NObjectView) -> u8 {
    (if node.is_blank_node {
        1u8
    } else {
        0u8
    }) | (if node.has_subject {
        2u8
    } else {
        0u8
    })
}

/// A node record: its IRI, flags, types, literal properties, references
/// and reverse references.
pub open spec fn encode_node(iri: Seq<u8>, node: NObjectView) -> Seq<u8> {
    encode_len_string(iri) + seq![node_flags(node)] + encode_list(node.types, index_enc()) + encode_list(
        node.properties,
        property_enc(),
    ) + encode_list(node.references, reference_enc()) + encode_list(node.reverse_references, reference_enc())
}

pub open spec fn parse_node(s: Seq<u8>) -> Result<((Seq<u8>, NObjectView), nat), PersistError> {
    match parse_len_string(s) {
        Ok((iri, n1)) => if n1 >= s.len() {
            Err(PersistError::UnexpectedEnd)
        } else {
            let flags = s[n1 as int];
            let p2 = n1 + 1;
            match parse_list(skip(s, p2), index_item()) {
                Ok((types, n2)) => match parse_list(skip(s, p2 + n2), property_item()) {
                    Ok((properties, n3)) => match parse_list(skip(s, p2 + n2 + n3), reference_item()) {
                        Ok((references, n4)) => match parse_list(skip(s, p2 + n2 + n3 + n4), reference_item()) {
                            Ok((reverse_references, n5)) => Ok(
                                (
                                    (
                                        iri,
                                        NObjectView {
                                            types,
                                            properties,
                                            references,
                                            reverse_references,
                                            is_blank_node: flags & 1 != 0,
                                            has_subject: flags & 2 != 0,
                                        },
                                    ),
                                    p2 + n2 + n3 + n4 + n5,
                                ),
                            ),
                            Err(e) => Err(e),
                        },
                        Err(e) => Err(e),
                    },
                    Err(e) => Err(e),
                },
                Err(e) => Err(e),
            }
        },
        Err(e) => Err(e),
    }
}

pub open spec fn node_item() -> spec_fn(Seq<u8>) -> Result<((Seq<u8>, NObjectView), nat), PersistError> {
    |s: Seq<u8>| parse_node(s)
}

pub open spec fn node_enc() -> spec_fn((Seq<u8>, NObjectView)) -> Seq<u8> {
    |x: (Seq<u8>, NObjectView)| encode_node(x.0, x.1)
}

/// The IRI bytes and contents of each node.
pub open spec fn nodes_view(nodes: Seq<(String, NObject)>) -> Seq<(Seq<u8>, NObjectView)> {
    nodes.map_values(|x: (String, NObject)| (encode_utf8(x.0@), x.1.view()))
}

impl NObject {
    /// Writes the node record with its IRI.
    pub fn store(&self, iri: &str, out: &mut Vec<u8>)
        ensures
            final(out)@ == old(out)@ + encode_node(iri.spec_bytes(), self.view()),
    {
        write_len_string(iri, out);
        let blank: u8 = if self.is_blank_node {
            1
        } else {
            0
        };
        let subject: u8 = if self.has_subject {
            2
        } else {
            0
        };
        out.push(blank | subject);
        write_index_list(out, &self.types);
        write_property_list(out, &self.properties);
        write_reference_list(out, &self.references);
        write_reference_list(out, &self.reverse_references);
        assert(out@ =~= old(out)@ + encode_node(iri.spec_bytes(), self.view()));
    }

    /// Reads a node record at `pos`: the IRI, the node and the position
    /// after the record.
    #[verifier::spinoff_prover]
    #[verifier::rlimit(50)]
    pub fn restore(data: &[u8], pos: usize) -> (res: Result<(String, NObject, usize), PersistError>)
        requires
            pos <= data@.len(),
        ensures
            match parse_node(skip(data@, pos as nat)) {
                Ok(((iri, node), n)) => res matches Ok((s, o, p)) && encode_utf8(s@) == iri && o.view() == node && p
                    == pos + n && p <= data@.len(),
                Err(e) => res matches Err(e2) && e2 == e,
            },
    {
        let ghost s = skip(data@, pos as nat);
        let (iri, p1) = read_len_string(data, pos)?;
        proof {
            assert(data@.subrange(pos as int, data@.len() as int) == s);
        }
        if p1 >= data.len() {
            return Err(PersistError::UnexpectedEnd);
        }
        let flags = data[p1];
        let ghost n1 = (p1 - pos) as nat;
        assert(s[n1 as int] == flags);
        let p2 = p1 + 1;
        proof {
            lemma_skip_skip(data@, pos as nat, (p2 - pos) as nat);
        }
        let (types, p3) = read_index_list(data, p2)?;
        proof {
            lemma_skip_skip(data@, pos as nat, (p3 - pos) as nat);
        }
        let (properties, p4) = read_property_list(data, p3)?;
        proof {
            lemma_skip_skip(data@, pos as nat, (p4 - pos) as nat);
        }
        let (references, p5) = read_reference_list(data, p4)?;
        proof {
            lemma_skip_skip(data@, pos as nat, (p5 - pos) as nat);
        }
        let (reverse_references, p6) = read_reference_list(data, p5)?;
        let node = NObject {
            types,
            properties,
            references,
            reverse_references,
            is_blank_node: (flags & 1) != 0,
            has_subject: (flags & 2) != 0,
        };
        Ok((iri, node, p6))
    }
}

proof fn lemma_node_flags(node: NObjectView)
    ensures
        (node_flags(node) & 1 != 0) == node.is_blank_node,
        (node_flags(node) & 2 != 0) == node.has_subject,
{
    let a: u8 = if node.is_blank_node {
        1u8
    } else {
        0u8
    };
    let b: u8 = if node.has_subject {
        2u8
    } else {
        0u8
    };
    assert((a == 0 || a == 1) && (b == 0 || b == 2) ==> (((a | b) & 1 != 0) == (a == 1) && ((a | b) & 2 != 0) == (b
        == 2))) by (bit_vector);
}

/// The lists of a node can be written: their lengths fit a varint.
pub open spec fn node_lists_fit(node: NObjectView) -> bool {
    &&& node.types.len() <= u64::MAX
    &&& node.properties.len() <= u64::MAX
    &&& node.references.len() <= u64::MAX
    &&& node.reverse_references.len() <= u64::MAX
}

/// A list followed by other bytes reads back as written, and leaves those
/// bytes to read.
proof fn lemma_list_then<T>(
    xs: Seq<T>,
    enc: spec_fn(T) -> Seq<u8>,
    item: spec_fn(Seq<u8>) -> Result<(T, nat), PersistError>,
    rest: Seq<u8>,
)
    requires
        codec_roundtrips(xs, enc, item),
        xs.len() <= u64::MAX,
    ensures
        parse_list(encode_list(xs, enc) + rest, item) == Ok::<(Seq<T>, nat), PersistError>(
            (xs, encode_list(xs, enc).len()),
        ),
        skip(encode_list(xs, enc) + rest, encode_list(xs, enc).len()) == rest,
{
    lemma_list_roundtrip(xs, enc, item, rest);
    lemma_skip_concat(encode_list(xs, enc), rest);
}

/// The four lists of a node, one after another, read back as written.
proof fn lemma_node_lists_roundtrip(node: NObjectView, rest: Seq<u8>)
    requires
        node_lists_fit(node),
    ensures
        ({
            let l1 = encode_list(node.types, index_enc());
            let l2 = encode_list(node.properties, property_enc());
            let l3 = encode_list(node.references, reference_enc());
            let l4 = encode_list(node.reverse_references, reference_enc());
            let s = l1 + (l2 + (l3 + (l4 + rest)));
            &&& parse_list(s, index_item()) == Ok::<(Seq<usize>, nat), PersistError>((node.types, l1.len()))
            &&& parse_list(skip(s, l1.len()), property_item()) == Ok::<(Seq<PredicateLiteral>, nat), PersistError>(
                (node.properties, l2.len()),
            )
            &&& parse_list(skip(s, l1.len() + l2.len()), reference_item()) == Ok::<
                (Seq<PredicateReference>, nat),
                PersistError,
            >((node.references, l3.len()))
            &&& parse_list(skip(s, l1.len() + l2.len() + l3.len()), reference_item()) == Ok::<
                (Seq<PredicateReference>, nat),
                PersistError,
            >((node.reverse_references, l4.len()))
        }),
{
    let l1 = encode_list(node.types, index_enc());
    let l2 = encode_list(node.properties, property_enc());
    let l3 = encode_list(node.references, reference_enc());
    let l4 = encode_list(node.reverse_references, reference_enc());
    let x3 = l4 + rest;
    let x2 = l3 + x3;
    let x1 = l2 + x2;
    let s = l1 + x1;
    lemma_index_codec(node.types);
    lemma_list_then(node.types, index_enc(), index_item(), x1);
    lemma_property_codec(node.properties);
    lemma_list_then(node.properties, property_enc(), property_item(), x2);
    lemma_reference_codec(node.references);
    lemma_list_then(node.references, reference_enc(), reference_item(), x3);
    lemma_reference_codec(node.reverse_references);
    lemma_list_then(node.reverse_references, reference_enc(), reference_item(), rest);
    lemma_skip_skip(s, l1.len(), l2.len());
    lemma_skip_skip(s, l1.len() + l2.len(), l3.len());
}

/// A node record reads back as the node it was written from.
#[verifier::spinoff_prover]
#[verifier::rlimit(60)]
pub proof fn lemma_node_roundtrip(iri: Seq<u8>, node: NObjectView, rest: Seq<u8>)
    requires
        valid_utf8(iri),
        iri.len() <= usize::MAX,
        node_lists_fit(node),
    ensures
        parse_node(encode_node(iri, node) + rest) == Ok::<((Seq<u8>, NObjectView), nat), PersistError>(
            ((iri, node), encode_node(iri, node).len()),
        ),
{
    let a = encode_len_string(iri);
    let l1 = encode_list(node.types, index_enc());
    let l2 = encode_list(node.properties, property_enc());
    let l3 = encode_list(node.references, reference_enc());
    let l4 = encode_list(node.reverse_references, reference_enc());
    let f = seq![node_flags(node)];
    let lists = l1 + (l2 + (l3 + (l4 + rest)));
    let s = encode_node(iri, node) + rest;
    assert(s =~= a + (f + lists));
    lemma_len_string_roundtrip(iri, f + lists);
    assert(s[a.len() as int] == node_flags(node));
    let p2 = a.len() + 1;
    assert(skip(s, p2) =~= lists);
    lemma_node_lists_roundtrip(node, rest);
    lemma_skip_skip(s, p2, l1.len());
    lemma_skip_skip(s, p2, l1.len() + l2.len());
    lemma_skip_skip(s, p2, l1.len() + l2.len() + l3.len());
    lemma_node_flags(node);
}

/// Writes the nodes block: the number of nodes, then each node record.
/// Returns `false`, writing nothing, when the records do not fit a block.
pub fn store_nodes(nodes: &Vec<(String, NObject)>, out: &mut Vec<u8>) -> (written: bool)
    ensures
        written == (encode_list(nodes_view(nodes@), node_enc()).len() + 5 <= u32::MAX),
        written ==> final(out)@ == old(out)@ + encode_block(
            HeaderType::Nodes,
            encode_list(nodes_view(nodes@), node_enc()),
        ),
        !written ==> final(out)@ == old(out)@,
{
    let ghost all = nodes_view(nodes@);
    let mut payload: Vec<u8> = Vec::new();
    write_varint(&mut payload, nodes.len() as u64);
    let ghost head = payload@;
    let mut k: usize = 0;
    assert(all.subrange(0, all.len() as int) =~= all);
    while k < nodes.len()
        invariant
            all == nodes_view(nodes@),
            k <= nodes@.len(),
            head == leb128_encoding(all.len()),
            payload@ + encode_items(all.subrange(k as int, all.len() as int), node_enc()) == head + encode_items(
                all,
                node_enc(),
            ),
        decreases nodes@.len() - k,
    {
        let ghost before = payload@;
        nodes[k].1.store(nodes[k].0.as_str(), &mut payload);
        proof {
            let rest = all.subrange(k as int, all.len() as int);
            assert(rest[0] == all[k as int]);
            assert(rest.drop_first() =~= all.subrange(k + 1, all.len() as int));
            assert(before + encode_items(rest, node_enc()) =~= payload@ + encode_items(rest.drop_first(), node_enc()));
        }
        k += 1;
    }
    proof {
        assert(all.subrange(k as int, all.len() as int) =~= Seq::<(Seq<u8>, NObjectView)>::empty());
        assert(payload@ + Seq::<u8>::empty() =~= payload@);
    }
    if payload.len() > 0xFFFF_FFFA {
        return false;
    }
    write_block(out, HeaderType::Nodes, payload.as_slice());
    true
}

/// Reads the nodes block from its payload.
pub fn restore_nodes(payload: &[u8]) -> (res: Result<Vec<(String, NObject)>, PersistError>)
    ensures
        match parse_list(payload@, node_item()) {
            Ok((xs, _)) => res matches Ok(v) && nodes_view(v@) == xs,
            Err(e) => res matches Err(e2) && e2 == e,
        },
{
    assert(skip(payload@, 0) =~= payload@);
    assert(payload@.subrange(0, payload@.len() as int) =~= payload@);
    let (count, start) = read_varint(payload, 0)?;
    proof {
        lemma_items_rest_start(payload@, start as nat, count as nat, node_item());
    }
    let mut v: Vec<(String, NObject)> = Vec::new();
    let mut p: usize = start;
    let mut k: u64 = 0;
    let ghost all = parse_items(skip(payload@, start as nat), count as nat, node_item());
    assert(nodes_view(v@) =~= Seq::<(Seq<u8>, NObjectView)>::empty());
    while k < count
        invariant
            0 < start <= p <= payload@.len(),
            k <= count,
            all == parse_items(skip(payload@, start as nat), count as nat, node_item()),
            parse_list(payload@, node_item()) == match all {
                Ok((xs, m)) => Ok::<(Seq<(Seq<u8>, NObjectView)>, nat), PersistError>((xs, (start + m) as nat)),
                Err(e) => Err(e),
            },
            all == items_rest(payload@, start as nat, p as nat, nodes_view(v@), (count - k) as nat, node_item()),
        decreases count - k,
    {
        let (iri, node, next) = match NObject::restore(payload, p) {
            Ok(r) => r,
            Err(e) => {
                proof {
                    lemma_items_rest_err(
                        payload@,
                        start as nat,
                        p as nat,
                        nodes_view(v@),
                        (count - k) as nat,
                        node_item(),
                        e,
                    );
                }
                return Err(e);
            },
        };
        let ghost x = (encode_utf8(iri@), node.view());
        proof {
            lemma_items_rest_step(
                payload@,
                start as nat,
                p as nat,
                next as nat,
                nodes_view(v@),
                (count - k) as nat,
                node_item(),
                x,
            );
        }
        let ghost before = nodes_view(v@);
        v.push((iri, node));
        assert(nodes_view(v@) =~= before.push(x));
        p = next;
        k += 1;
    }
    proof {
        lemma_items_rest_end(payload@, start as nat, p as nat, nodes_view(v@), node_item());
    }
    Ok(v)
}

/// The nodes block reads back as the nodes it was written from.
pub proof fn lemma_nodes_roundtrip(nodes: Seq<(Seq<u8>, NObjectView)>, rest: Seq<u8>)
    requires
        nodes.len() <= u64::MAX,
        forall|k: int|
            0 <= k < nodes.len() ==> valid_utf8((#[trigger] nodes[k]).0) && nodes[k].0.len() <= usize::MAX
                && node_lists_fit(nodes[k].1),
    ensures
        parse_list(encode_list(nodes, node_enc()) + rest, node_item()) == Ok::<
            (Seq<(Seq<u8>, NObjectView)>, nat),
            PersistError,
        >((nodes, encode_list(nodes, node_enc()).len())),
{
    assert forall|i: int, r: Seq<u8>| 0 <= i < nodes.len() implies #[trigger] node_item()(node_enc()(nodes[i]) + r)
        == Ok::<((Seq<u8>, NObjectView), nat), PersistError>((nodes[i], node_enc()(nodes[i]).len())) by {
        lemma_node_roundtrip(nodes[i].0, nodes[i].1, r);
    }
    lemma_list_roundtrip(nodes, node_enc(), node_item(), rest);
}

} // verus!
