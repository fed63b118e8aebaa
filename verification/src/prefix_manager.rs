//! Namespace prefixes: the table of known IRI prefixes, and shortening and
//! expanding IRIs with it.

use bimap::{BiHashMap, BiMap};
use vstd::prelude::*;
use vstd::utf8::{decode_utf8, encode_utf8};

use crate::persistency::blocks::{encode_block, zlib_compressed, zlib_decompressed};
use crate::persistency::payloads::{
    encode_prefix_pairs, lemma_prefix_pairs_roundtrip, parse_prefix_pairs, prefix_block_payload, prefix_pairs_bytes,
    restore_prefixes, store_prefixes,
};
use crate::persistency::{lemma_u32_le_roundtrip, skip, u32_from_le, u32_le_bytes, HeaderType, PersistError};

verus! {

#[verifier::external_type_specification]
#[verifier::external_body]
#[verifier::reject_recursive_types(L)]
#[verifier::reject_recursive_types(R)]
#[verifier::reject_recursive_types(LS)]
#[verifier::reject_recursive_types(RS)]
pub struct ExBiHashMap<L, R, LS, RS>(BiHashMap<L, R, LS, RS>);

/// The pairs of a prefix table, as a map from base IRI (left) to prefix
/// (right).
pub uninterp spec fn bimap_pairs(m: BiMap<Box<str>, Box<str>>) -> Map<Seq<char>, Seq<char>>;

/// A table without pairs.
pub open spec fn empty_table() -> Map<Seq<char>, Seq<char>> {
    Map::empty()
}

/// The entries (base IRI, prefix) list the table: each pair once.
pub open spec fn lists_table(entries: Seq<(String, String)>, m: Map<Seq<char>, Seq<char>>) -> bool {
    &&& forall|i: int|
        0 <= i < entries.len() ==> m.contains_key(#[trigger] entries[i].0@) && m[entries[i].0@] == entries[i].1@
    &&& forall|k: Seq<char>| #[trigger] m.contains_key(k) ==> exists|i: int| 0 <= i < entries.len() && #[trigger] entries[i].0@ == k
    &&& forall|i: int, j: int| 0 <= i < j < entries.len() ==> #[trigger] entries[i].0@ != #[trigger] entries[j].0@
}

/// The table after inserting the pair `left <> right`: any pair with the
/// same left or the same right value is dropped first.
pub open spec fn bimap_inserted(m: Map<Seq<char>, Seq<char>>, left: Seq<char>, right: Seq<char>) -> Map<
    Seq<char>,
    Seq<char>,
> {
    Map::new(
        |k: Seq<char>| k == left || (m.contains_key(k) && m[k] != right),
        |k: Seq<char>| if k == left { right } else { m[k] },
    )
}

/// `BiMap::new`: an empty table.
#[verifier::external_body]
fn bimap_new() -> (res: BiMap<Box<str>, Box<str>>)
    ensures
        bimap_pairs(res) == empty_table(),
{
    BiMap::new()
}

/// `BiMap::insert`: removes the pair with this left value and the pair with
/// this right value, then inserts the pair.
#[verifier::external_body]
fn bimap_insert(m: &mut BiMap<Box<str>, Box<str>>, left: &str, right: &str)
    ensures
        bimap_pairs(*final(m)) == bimap_inserted(bimap_pairs(*old(m)), left@, right@),
{
    m.insert(left.into(), right.into());
}

/// `BiMap::get_by_left`: the right value paired with the left value.
#[verifier::external_body]
fn bimap_get_by_left<'a>(m: &'a BiMap<Box<str>, Box<str>>, left: &str) -> (res: Option<&'a str>)
    ensures
        res is Some <==> bimap_pairs(*m).contains_key(left@),
        res matches Some(r) ==> r@ == bimap_pairs(*m)[left@],
{
    m.get_by_left(left).map(|r| r.as_ref())
}

/// `BiMap::get_by_right`: the left value paired with the right value.
#[verifier::external_body]
fn bimap_get_by_right<'a>(m: &'a BiMap<Box<str>, Box<str>>, right: &str) -> (res: Option<&'a str>)
    ensures
        res is None <==> (forall|k: Seq<char>| #[trigger] bimap_pairs(*m).contains_key(k) ==> bimap_pairs(*m)[k] != right@),
        res matches Some(l) ==> bimap_pairs(*m).contains_key(l@) && bimap_pairs(*m)[l@] == right@,
{
    m.get_by_right(right).map(|l| l.as_ref())
}

/// `BiMap::iter`, each pair copied: every pair of the table once, as
/// (base IRI, prefix), in an order that the hash maps decide.
#[verifier::external_body]
fn bimap_entries(m: &BiMap<Box<str>, Box<str>>) -> (res: Vec<(String, String)>)
    ensures
        lists_table(res@, bimap_pairs(*m)),
{
    m.iter().map(|(l, r)| (l.to_string(), r.to_string())).collect()
}

/// `BiMap::clear`: an empty table.
#[verifier::external_body]
fn bimap_clear(m: &mut BiMap<Box<str>, Box<str>>)
    ensures
        bimap_pairs(*final(m)) == empty_table(),
{
    m.clear();
}

/// No two base IRIs share a prefix.
pub open spec fn injective(m: Map<Seq<char>, Seq<char>>) -> bool {
    forall|k1: Seq<char>, k2: Seq<char>|
        #[trigger] m.contains_key(k1) && #[trigger] m.contains_key(k2) && m[k1] == m[k2] ==> k1 == k2
}

/// Inserting into a table keeps it injective.
pub proof fn lemma_inserted_injective(m: Map<Seq<char>, Seq<char>>, left: Seq<char>, right: Seq<char>)
    requires
        injective(m),
    ensures
        injective(bimap_inserted(m, left, right)),
{
}

/// The base IRI that has this prefix, if any.
pub open spec fn base_of(m: Map<Seq<char>, Seq<char>>, prefix: Seq<char>) -> Option<Seq<char>> {
    if exists|k: Seq<char>| #[trigger] m.contains_key(k) && m[k] == prefix {
        Some(choose|k: Seq<char>| #[trigger] m.contains_key(k) && m[k] == prefix)
    } else {
        None
    }
}

/// The table with the well-known prefixes added, in this order.
pub open spec fn with_default_prefixes(m: Map<Seq<char>, Seq<char>>) -> Map<Seq<char>, Seq<char>> {
    let m = bimap_inserted(m, "http://www.w3.org/1999/02/22-rdf-syntax-ns#"@, "rdf"@);
    let m = bimap_inserted(m, "http://www.w3.org/2000/01/rdf-schema#"@, "rdfs"@);
    let m = bimap_inserted(m, "http://www.w3.org/2002/07/owl#"@, "owl"@);
    let m = bimap_inserted(m, "http://www.w3.org/2001/XMLSchema#"@, "xsd"@);
    let m = bimap_inserted(m, "http://www.w3.org/2004/02/skos/core#"@, "skos"@);
    let m = bimap_inserted(m, "http://purl.org/dc/terms/"@, "dc"@);
    let m = bimap_inserted(m, "http://xmlns.com/foaf/0.1/"@, "foaf"@);
    let m = bimap_inserted(m, "https://schema.org/"@, "schema"@);
    let m = bimap_inserted(m, "http://www.w3.org/ns/prov#"@, "prov"@);
    let m = bimap_inserted(m, "http://www.opengis.net/ont/geosparql#"@, "geo"@);
    let m = bimap_inserted(m, "http://dbpedia.org/ontology/"@, "dbo"@);
    let m = bimap_inserted(m, "http://dbpedia.org/property/"@, "dbp"@);
    bimap_inserted(m, "http://dbpedia.org/resource/"@, "dbr"@)
}

/// A character that ends the namespace part of an IRI.
pub open spec fn is_delimiter(c: char, slash_only: bool) -> bool {
    c == '/' || (!slash_only && c == '#')
}

/// Position of the last delimiter among the first `k` characters, or -1.
pub open spec fn last_delimiter(s: Seq<char>, k: int, slash_only: bool) -> int
    decreases k,
{
    if k <= 0 {
        -1
    } else if is_delimiter(s[k - 1], slash_only) {
        k - 1
    } else {
        last_delimiter(s, k - 1, slash_only)
    }
}

/// Position of the first `c` from position `i` on, or -1.
pub open spec fn first_index_of(s: Seq<char>, c: char, i: int) -> int
    decreases s.len() - i,
{
    if i < 0 || i >= s.len() {
        -1
    } else if s[i] == c {
        i
    } else {
        first_index_of(s, c, i + 1)
    }
}

/// `prefix:local`.
pub open spec fn prefixed_name(prefix: Seq<char>, local: Seq<char>) -> Seq<char> {
    prefix + ":"@ + local
}

/// The IRI shortened with the prefix of its namespace: the part up to its
/// last `#` or `/`, or else the part up to the `/` before that; the IRI
/// itself when neither has a prefix.
pub open spec fn spec_prefixed(m: Map<Seq<char>, Seq<char>>, iri: Seq<char>) -> Seq<char> {
    let d = last_delimiter(iri, iri.len() as int, false);
    if d < 0 {
        iri
    } else if m.contains_key(iri.subrange(0, d + 1)) {
        prefixed_name(m[iri.subrange(0, d + 1)], iri.subrange(d + 1, iri.len() as int))
    } else {
        let d2 = last_delimiter(iri, d, true);
        if d2 >= 0 && m.contains_key(iri.subrange(0, d2 + 1)) {
            prefixed_name(m[iri.subrange(0, d2 + 1)], iri.subrange(d2 + 1, iri.len() as int))
        } else {
            iri
        }
    }
}

/// End of the namespace part that `get_prefixed_opt` looks up: after the
/// last `#` or `/`, or after the first character when there is none.
pub open spec fn namespace_end(iri: Seq<char>) -> int {
    let d = last_delimiter(iri, iri.len() as int, false);
    if d < 0 {
        1
    } else {
        d + 1
    }
}

/// The IRI shortened with the prefix of the namespace that ends at its last
/// `#` or `/`, if that namespace has a prefix.
pub open spec fn spec_prefixed_opt(m: Map<Seq<char>, Seq<char>>, iri: Seq<char>) -> Option<Seq<char>> {
    let e = namespace_end(iri);
    if m.contains_key(iri.subrange(0, e)) {
        Some(prefixed_name(m[iri.subrange(0, e)], iri.subrange(e, iri.len() as int)))
    } else {
        None
    }
}

/// The full IRI of `prefix:local`, if the prefix is known.
pub open spec fn spec_full(m: Map<Seq<char>, Seq<char>>, name: Seq<char>) -> Option<Seq<char>> {
    let c = first_index_of(name, ':', 0);
    if c < 0 {
        None
    } else {
        match base_of(m, name.subrange(0, c)) {
            Some(base) => Some(base + name.subrange(c + 1, name.len() as int)),
            None => None,
        }
    }
}

/// The name has a prefix (before its first `:`) that the table knows.
pub open spec fn spec_has_known_prefix(m: Map<Seq<char>, Seq<char>>, name: Seq<char>) -> bool {
    let c = first_index_of(name, ':', 0);
    c >= 0 && base_of(m, name.subrange(0, c)) is Some
}

proof fn lemma_last_delimiter_range(s: Seq<char>, k: int, slash_only: bool)
    ensures
        -1 <= last_delimiter(s, k, slash_only) < if k > 0 { k } else { 0 },
        last_delimiter(s, k, slash_only) >= 0 ==> is_delimiter(s[last_delimiter(s, k, slash_only)], slash_only),
    decreases k,
{
    if k > 0 {
        lemma_last_delimiter_range(s, k - 1, slash_only);
    }
}

proof fn lemma_first_index_range(s: Seq<char>, c: char, i: int)
    requires
        0 <= i,
    ensures
        first_index_of(s, c, i) == -1 || (i <= first_index_of(s, c, i) < s.len() && s[first_index_of(s, c, i)] == c),
    decreases s.len() - i,
{
    if i < s.len() {
        lemma_first_index_range(s, c, i + 1);
    }
}

/// Position of the last delimiter before `end`.
fn rfind_delimiter(s: &str, end: usize, slash_only: bool) -> (res: Option<usize>)
    requires
        end <= s@.len(),
    ensures
        res matches Some(d) ==> d < end,
        match res {
            Some(d) => d == last_delimiter(s@, end as int, slash_only),
            None => last_delimiter(s@, end as int, slash_only) < 0,
        },
{
    let mut i = end;
    while i > 0
        invariant
            i <= end <= s@.len(),
            last_delimiter(s@, end as int, slash_only) == last_delimiter(s@, i as int, slash_only),
        decreases i,
    {
        let c = s.get_char(i - 1);
        if c == '/' || (!slash_only && c == '#') {
            return Some(i - 1);
        }
        i -= 1;
    }
    None
}

/// Position of the first `:`.
fn find_colon(s: &str) -> (res: Option<usize>)
    ensures
        res matches Some(c) ==> c < s@.len(),
        match res {
            Some(c) => c == first_index_of(s@, ':', 0),
            None => first_index_of(s@, ':', 0) < 0,
        },
{
    let n = s.unicode_len();
    let mut i: usize = 0;
    while i < n
        invariant
            i <= n == s@.len(),
            first_index_of(s@, ':', 0) == first_index_of(s@, ':', i as int),
        decreases n - i,
    {
        if s.get_char(i) == ':' {
            return Some(i);
        }
        i += 1;
    }
    None
}

/// `prefix:local` as a new string.
fn make_prefixed(prefix: &str, local: &str) -> (res: String)
    ensures
        res@ == prefixed_name(prefix@, local@),
{
    let mut res = String::from_str(prefix);
    res.append(":");
    res.append(local);
    res
}

/// The prefixes known to the viewer: a one-to-one table between base IRIs
/// and prefixes.
pub struct PrefixManager {
    prefixes: BiMap<Box<str>, Box<str>>,
}

impl PrefixManager {
    /// The table as a map from base IRI to prefix.
    pub closed spec fn view(&self) -> Map<Seq<char>, Seq<char>> {
        bimap_pairs(self.prefixes)
    }

    /// No two base IRIs share a prefix.
    pub open spec fn wf(&self) -> bool {
        injective(self@)
    }

    /// A table with the well-known prefixes.
    pub fn new() -> (res: Self)
        ensures
            res.wf(),
            res@ == with_default_prefixes(empty_table()),
    {
        let mut prefix_manager = PrefixManager { prefixes: bimap_new() };
        prefix_manager.add_defaults();
        prefix_manager
    }

    fn add_defaults(&mut self)
        requires
            old(self).wf(),
        ensures
            final(self).wf(),
            final(self)@ == with_default_prefixes(old(self)@),
    {
        self.insert_pair("http://www.w3.org/1999/02/22-rdf-syntax-ns#", "rdf");
        self.insert_pair("http://www.w3.org/2000/01/rdf-schema#", "rdfs");
        self.insert_pair("http://www.w3.org/2002/07/owl#", "owl");
        self.insert_pair("http://www.w3.org/2001/XMLSchema#", "xsd");
        self.insert_pair("http://www.w3.org/2004/02/skos/core#", "skos");
        self.insert_pair("http://purl.org/dc/terms/", "dc");
        self.insert_pair("http://xmlns.com/foaf/0.1/", "foaf");
        self.insert_pair("https://schema.org/", "schema");
        self.insert_pair("http://www.w3.org/ns/prov#", "prov");
        self.insert_pair("http://www.opengis.net/ont/geosparql#", "geo");
        self.insert_pair("http://dbpedia.org/ontology/", "dbo");
        self.insert_pair("http://dbpedia.org/property/", "dbp");
        self.insert_pair("http://dbpedia.org/resource/", "dbr");
    }

    fn insert_pair(&mut self, iri: &str, prefix: &str)
        requires
            old(self).wf(),
        ensures
            final(self).wf(),
            final(self)@ == bimap_inserted(old(self)@, iri@, prefix@),
    {
        proof {
            lemma_inserted_injective(self@, iri@, prefix@);
        }
        bimap_insert(&mut self.prefixes, iri, prefix);
    }

    /// The IRI written with a known prefix, or the IRI itself.
    pub fn get_prefixed(&self, iri: &str) -> (res: String)
        ensures
            res@ == spec_prefixed(self@, iri@),
    {
        let n = iri.unicode_len();
        if let Some(d) = rfind_delimiter(iri, n, false) {
            let base = iri.substring_char(0, d + 1);
            if let Some(prefix) = bimap_get_by_left(&self.prefixes, base) {
                return make_prefixed(prefix, iri.substring_char(d + 1, n));
            }
            if let Some(d2) = rfind_delimiter(iri, d, true) {
                let base2 = iri.substring_char(0, d2 + 1);
                if let Some(prefix2) = bimap_get_by_left(&self.prefixes, base2) {
                    return make_prefixed(prefix2, iri.substring_char(d2 + 1, n));
                }
            }
        }
        String::from_str(iri)
    }

    /// The IRI written with the prefix of its namespace, if it has one. The
    /// IRI must not be empty, and without a `#` or `/` it must start with
    /// an ASCII character.
    pub fn get_prefixed_opt(&self, iri: &str) -> (res: Option<String>)
        requires
            iri@.len() > 0,
            last_delimiter(iri@, iri@.len() as int, false) < 0 ==> (iri@[0] as u32) < 128,
        ensures
            match spec_prefixed_opt(self@, iri@) {
                Some(name) => res matches Some(s) && s@ == name,
                None => res is None,
            },
    {
        let n = iri.unicode_len();
        let end = match rfind_delimiter(iri, n, false) {
            Some(d) => d + 1,
            None => 1,
        };
        let base = iri.substring_char(0, end);
        if let Some(prefix) = bimap_get_by_left(&self.prefixes, base) {
            return Some(make_prefixed(prefix, iri.substring_char(end, n)));
        }
        None
    }

    /// The full IRI of a prefixed name, if its prefix is known.
    pub fn get_full_opt(&self, iri: &str) -> (res: Option<String>)
        requires
            self.wf(),
        ensures
            match spec_full(self@, iri@) {
                Some(full) => res matches Some(s) && s@ == full,
                None => res is None,
            },
    {
        if let Some(c) = find_colon(iri) {
            let n = iri.unicode_len();
            let prefix = iri.substring_char(0, c);
            let suffix = iri.substring_char(c + 1, n);
            if let Some(base_iri) = bimap_get_by_right(&self.prefixes, prefix) {
                let mut full = String::from_str(base_iri);
                full.append(suffix);
                return Some(full);
            }
            proof {
                assert(!(exists|k: Seq<char>| #[trigger] self@.contains_key(k) && self@[k] == prefix@));
            }
        }
        None
    }

    /// Whether the name starts with a known prefix and a `:`.
    pub fn has_known_prefix(&self, iri: &str) -> (res: bool)
        ensures
            res == spec_has_known_prefix(self@, iri@),
    {
        if let Some(c) = find_colon(iri) {
            let prefix = iri.substring_char(0, c);
            let found = bimap_get_by_right(&self.prefixes, prefix);
            proof {
                if found is Some {
                    let l = found.unwrap()@;
                    assert(self@.contains_key(l) && self@[l] == prefix@);
                }
            }
            return found.is_some();
        }
        false
    }

    /// Adds a prefix for an IRI unless the prefix is taken.
    pub fn add_prefix(&mut self, prefix: &str, iri: &str)
        requires
            old(self).wf(),
        ensures
            final(self).wf(),
            base_of(old(self)@, prefix@) is None ==> final(self)@ == bimap_inserted(old(self)@, iri@, prefix@),
            base_of(old(self)@, prefix@) is Some ==> final(self)@ == old(self)@,
    {
        let iri_exists = bimap_get_by_right(&self.prefixes, prefix);
        if iri_exists.is_none() {
            self.insert_pair(iri, prefix);
        } else {
            proof {
                let l = iri_exists.unwrap()@;
                assert(self@.contains_key(l) && self@[l] == prefix@);
            }
        }
    }

    /// Back to the well-known prefixes only.
    pub fn clean(&mut self)
        ensures
            final(self).wf(),
            final(self)@ == with_default_prefixes(empty_table()),
    {
        bimap_clear(&mut self.prefixes);
        self.add_defaults();
    }
}

/// The stored pairs (prefix, base IRI) listing the table, each once.
pub open spec fn lists_stored(pairs: Seq<(String, String)>, m: Map<Seq<char>, Seq<char>>) -> bool {
    &&& forall|i: int|
        0 <= i < pairs.len() ==> m.contains_key(#[trigger] pairs[i].1@) && m[pairs[i].1@] == pairs[i].0@
    &&& forall|k: Seq<char>| #[trigger] m.contains_key(k) ==> exists|i: int| 0 <= i < pairs.len() && #[trigger] pairs[i].1@ == k
    &&& forall|i: int, j: int| 0 <= i < j < pairs.len() ==> #[trigger] pairs[i].1@ != #[trigger] pairs[j].1@
}

/// The (prefix, base IRI) pairs that a prefix block holds: a pair count,
/// then the zlib compressed pairs.
pub open spec fn prefix_block_entries(payload: Seq<u8>) -> Result<Seq<(Seq<u8>, Seq<u8>)>, PersistError> {
    if payload.len() < 4 {
        Err(PersistError::UnexpectedEnd)
    } else {
        match zlib_decompressed(skip(payload, 4)) {
            None => Err(PersistError::InvalidCompression),
            Some(bytes) => parse_prefix_pairs(bytes, u32_from_le(payload) as nat),
        }
    }
}

/// The table after inserting the first `k` stored (prefix, base IRI) pairs,
/// decoded from UTF-8.
pub open spec fn with_stored_pairs(m: Map<Seq<char>, Seq<char>>, pairs: Seq<(Seq<u8>, Seq<u8>)>, k: int) -> Map<
    Seq<char>,
    Seq<char>,
>
    decreases k,
{
    if k <= 0 {
        m
    } else {
        bimap_inserted(
            with_stored_pairs(m, pairs, k - 1),
            decode_utf8(pairs[k - 1].1),
            decode_utf8(pairs[k - 1].0),
        )
    }
}

impl PrefixManager {
    /// Every pair of the table once, as (base IRI, prefix), in an order the
    /// table decides.
    pub fn entries(&self) -> (res: Vec<(String, String)>)
        ensures
            lists_table(res@, self@),
    {
        bimap_entries(&self.prefixes)
    }

    /// Writes the table as its block: the pairs (prefix, base IRI) in the
    /// order the table lists them. Returns `false`, writing nothing, when
    /// the block would be too large.
    pub fn store(&self, out: &mut Vec<u8>) -> (written: bool)
        ensures
            exists|pairs: Seq<(String, String)>|
                #[trigger] lists_stored(pairs, self@) && (written == (pairs.len() <= u32::MAX
                    && prefix_block_payload(pairs).len() + 5 <= u32::MAX)) && (written ==> final(out)@ == old(out)@
                    + encode_block(HeaderType::Prefixes, prefix_block_payload(pairs))) && (!written ==> final(out)@
                    == old(out)@) && (written ==> zlib_decompressed(
                    zlib_compressed(encode_prefix_pairs(prefix_pairs_bytes(pairs))),
                ) == Some(encode_prefix_pairs(prefix_pairs_bytes(pairs)))),
    {
        let entries = bimap_entries(&self.prefixes);
        let mut pairs: Vec<(String, String)> = Vec::new();
        let mut i: usize = 0;
        while i < entries.len()
            invariant
                i <= entries@.len(),
                lists_table(entries@, self@),
                pairs@.len() == i,
                forall|j: int| 0 <= j < i ==> (#[trigger] pairs@[j]).0@ == entries@[j].1@ && pairs@[j].1@ == entries@[j].0@,
            decreases entries@.len() - i,
        {
            pairs.push((entries[i].1.clone(), entries[i].0.clone()));
            i += 1;
        }
        proof {
            assert forall|j: int| 0 <= j < pairs@.len() implies self@.contains_key(#[trigger] pairs@[j].1@)
                && self@[pairs@[j].1@] == pairs@[j].0@ by {
                assert(entries@[j].0@ == pairs@[j].1@);
            }
            assert forall|k: Seq<char>| #[trigger] self@.contains_key(k) implies exists|j: int|
                0 <= j < pairs@.len() && #[trigger] pairs@[j].1@ == k by {
                let w = choose|j: int| 0 <= j < entries@.len() && #[trigger] entries@[j].0@ == k;
                assert(pairs@[w].1@ == entries@[w].0@);
            }
            assert forall|a: int, b: int| 0 <= a < b < pairs@.len() implies #[trigger] pairs@[a].1@ != #[trigger] pairs@[b].1@ by {
                assert(entries@[a].0@ != entries@[b].0@);
            }
            assert(lists_stored(pairs@, self@));
        }
        if pairs.len() > 0xFFFF_FFFF {
            return false;
        }
        store_prefixes(&pairs, out)
    }

    /// Reads the table from the payload of its block: the well-known
    /// prefixes, then the stored pairs inserted in order.
    pub fn restore(payload: &[u8]) -> (res: Result<PrefixManager, PersistError>)
        ensures
            match prefix_block_entries(payload@) {
                Ok(pairs) => res matches Ok(pm) && pm.wf() && pm@ == with_stored_pairs(
                    with_default_prefixes(empty_table()),
                    pairs,
                    pairs.len() as int,
                ),
                Err(e) => res matches Err(e2) && e2 == e,
            },
    {
        let pairs = restore_prefixes(payload)?;
        let ghost stored = match prefix_block_entries(payload@) {
            Ok(p) => p,
            Err(_) => Seq::empty(),
        };
        let mut pm = PrefixManager::new();
        let mut k: usize = 0;
        while k < pairs.len()
            invariant
                k <= pairs@.len(),
                stored.len() == pairs@.len(),
                forall|j: int| 0 <= j < pairs@.len() ==> encode_utf8((#[trigger] pairs@[j]).0@) == stored[j].0 && encode_utf8(
                    pairs@[j].1@,
                ) == stored[j].1,
                pm.wf(),
                pm@ == with_stored_pairs(with_default_prefixes(empty_table()), stored, k as int),
            decreases pairs@.len() - k,
        {
            proof {
                vstd::utf8::encode_utf8_decode_utf8(pairs@[k as int].0@);
                vstd::utf8::encode_utf8_decode_utf8(pairs@[k as int].1@);
            }
            pm.insert_pair(pairs[k].1.as_str(), pairs[k].0.as_str());
            k += 1;
        }
        Ok(pm)
    }
}

proof fn lemma_first_colon(p: Seq<char>, local: Seq<char>, i: int)
    requires
        0 <= i <= p.len(),
        !p.contains(':'),
    ensures
        first_index_of(prefixed_name(p, local), ':', i) == p.len(),
    decreases p.len() - i,
{
    reveal_strlit(":");
    let name = prefixed_name(p, local);
    assert(name[p.len() as int] == ':');
    if i < p.len() {
        assert(name[i] == p[i]);
        assert(p[i] != ':') by {
            if p[i] == ':' {
                assert(p.contains(':'));
            }
        }
        lemma_first_colon(p, local, i + 1);
    }
}

/// Expanding `prefix:local`, for a base IRI with that prefix, gives the
/// base IRI followed by the local part.
proof fn lemma_full_of_prefixed(m: Map<Seq<char>, Seq<char>>, base: Seq<char>, local: Seq<char>)
    requires
        injective(m),
        m.contains_key(base),
        !m[base].contains(':'),
    ensures
        spec_full(m, prefixed_name(m[base], local)) == Some(base + local),
{
    reveal_strlit(":");
    let p = m[base];
    let name = prefixed_name(p, local);
    lemma_first_colon(p, local, 0);
    let c = p.len() as int;
    assert(name.subrange(0, c) =~= p);
    assert(name.subrange(c + 1, name.len() as int) =~= local);
    assert(m.contains_key(base) && m[base] == p);
    let k = choose|k: Seq<char>| #[trigger] m.contains_key(k) && m[k] == p;
    assert(k == base);
}

/// A shortened IRI expands back to the IRI, as long as no prefix holds a
/// `:`.
pub proof fn lemma_prefixed_full_roundtrip(m: Map<Seq<char>, Seq<char>>, iri: Seq<char>)
    requires
        injective(m),
        forall|k: Seq<char>| #[trigger] m.contains_key(k) ==> !m[k].contains(':'),
        spec_prefixed(m, iri) != iri,
    ensures
        spec_full(m, spec_prefixed(m, iri)) == Some(iri),
{
    let d = last_delimiter(iri, iri.len() as int, false);
    lemma_last_delimiter_range(iri, iri.len() as int, false);
    let base = iri.subrange(0, d + 1);
    if m.contains_key(base) {
        lemma_full_of_prefixed(m, base, iri.subrange(d + 1, iri.len() as int));
        assert(base + iri.subrange(d + 1, iri.len() as int) =~= iri);
    } else {
        let d2 = last_delimiter(iri, d, true);
        lemma_last_delimiter_range(iri, d, true);
        let base2 = iri.subrange(0, d2 + 1);
        lemma_full_of_prefixed(m, base2, iri.subrange(d2 + 1, iri.len() as int));
        assert(base2 + iri.subrange(d2 + 1, iri.len() as int) =~= iri);
    }
}

/// The same for the namespace lookup of `get_prefixed_opt`.
pub proof fn lemma_prefixed_opt_full_roundtrip(m: Map<Seq<char>, Seq<char>>, iri: Seq<char>)
    requires
        injective(m),
        forall|k: Seq<char>| #[trigger] m.contains_key(k) ==> !m[k].contains(':'),
        1 <= iri.len(),
        spec_prefixed_opt(m, iri) is Some,
    ensures
        spec_full(m, spec_prefixed_opt(m, iri).unwrap()) == Some(iri),
{
    lemma_last_delimiter_range(iri, iri.len() as int, false);
    let e = namespace_end(iri);
    lemma_full_of_prefixed(m, iri.subrange(0, e), iri.subrange(e, iri.len() as int));
    assert(iri.subrange(0, e) + iri.subrange(e, iri.len() as int) =~= iri);
}

/// Inserting stored pairs that list a one-to-one table, whatever the table
/// was before, yields a table that holds every listed pair.
pub proof fn lemma_stored_pairs_restored(
    m: Map<Seq<char>, Seq<char>>,
    start: Map<Seq<char>, Seq<char>>,
    pairs: Seq<(Seq<u8>, Seq<u8>)>,
)
    requires
        injective(m),
        forall|i: int|
            0 <= i < pairs.len() ==> m.contains_key(decode_utf8(#[trigger] pairs[i].1)) && m[decode_utf8(pairs[i].1)]
                == decode_utf8(pairs[i].0),
        forall|k: Seq<char>|
            #[trigger] m.contains_key(k) ==> exists|i: int| 0 <= i < pairs.len() && decode_utf8(#[trigger] pairs[i].1) == k,
        forall|i: int, j: int|
            0 <= i < j < pairs.len() ==> decode_utf8(#[trigger] pairs[i].1) != decode_utf8(#[trigger] pairs[j].1),
    ensures
        forall|k: Seq<char>|
            #[trigger] m.contains_key(k) ==> with_stored_pairs(start, pairs, pairs.len() as int).contains_key(k)
                && with_stored_pairs(start, pairs, pairs.len() as int)[k] == m[k],
{
    lemma_stored_prefix_kept(m, start, pairs, pairs.len() as int);
    assert forall|k: Seq<char>| #[trigger] m.contains_key(k) implies with_stored_pairs(
        start,
        pairs,
        pairs.len() as int,
    ).contains_key(k) && with_stored_pairs(start, pairs, pairs.len() as int)[k] == m[k] by {
        let i = choose|i: int| 0 <= i < pairs.len() && decode_utf8(#[trigger] pairs[i].1) == k;
        assert(decode_utf8(pairs[i].1) == k);
    }
}

proof fn lemma_stored_prefix_kept(
    m: Map<Seq<char>, Seq<char>>,
    start: Map<Seq<char>, Seq<char>>,
    pairs: Seq<(Seq<u8>, Seq<u8>)>,
    n: int,
)
    requires
        0 <= n <= pairs.len(),
        injective(m),
        forall|i: int|
            0 <= i < pairs.len() ==> m.contains_key(decode_utf8(#[trigger] pairs[i].1)) && m[decode_utf8(pairs[i].1)]
                == decode_utf8(pairs[i].0),
        forall|i: int, j: int|
            0 <= i < j < pairs.len() ==> decode_utf8(#[trigger] pairs[i].1) != decode_utf8(#[trigger] pairs[j].1),
    ensures
        forall|i: int|
            0 <= i < n ==> with_stored_pairs(start, pairs, n).contains_key(decode_utf8(#[trigger] pairs[i].1))
                && with_stored_pairs(start, pairs, n)[decode_utf8(pairs[i].1)] == decode_utf8(pairs[i].0),
    decreases n,
{
    if n > 0 {
        lemma_stored_prefix_kept(m, start, pairs, n - 1);
        let prev = with_stored_pairs(start, pairs, n - 1);
        let l = decode_utf8(pairs[n - 1].1);
        let r = decode_utf8(pairs[n - 1].0);
        assert forall|i: int| 0 <= i < n implies with_stored_pairs(start, pairs, n).contains_key(
            decode_utf8(#[trigger] pairs[i].1),
        ) && with_stored_pairs(start, pairs, n)[decode_utf8(pairs[i].1)] == decode_utf8(pairs[i].0) by {
            if i < n - 1 {
                let li = decode_utf8(pairs[i].1);
                assert(li != l);
                assert(m.contains_key(li) && m.contains_key(l));
                assert(prev[li] == m[li]);
                assert(m[li] != m[l]);
            }
        }
    }
}

/// A table written by `store` (whose compression round trips) and read
/// back by `restore` holds every pair it had.
pub proof fn lemma_prefix_table_roundtrip(m: Map<Seq<char>, Seq<char>>, pairs: Seq<(String, String)>)
    requires
        injective(m),
        lists_stored(pairs, m),
        pairs.len() <= u32::MAX,
        forall|i: int|
            0 <= i < pairs.len() ==> encode_utf8((#[trigger] pairs[i]).0@).len() <= usize::MAX && encode_utf8(
                pairs[i].1@,
            ).len() <= usize::MAX,
        zlib_decompressed(zlib_compressed(encode_prefix_pairs(prefix_pairs_bytes(pairs)))) == Some(
            encode_prefix_pairs(prefix_pairs_bytes(pairs)),
        ),
    ensures
        prefix_block_entries(prefix_block_payload(pairs)) == Ok::<Seq<(Seq<u8>, Seq<u8>)>, PersistError>(
            prefix_pairs_bytes(pairs),
        ),
        forall|k: Seq<char>|
            #[trigger] m.contains_key(k) ==> with_stored_pairs(
                with_default_prefixes(empty_table()),
                prefix_pairs_bytes(pairs),
                pairs.len() as int,
            ).contains_key(k) && with_stored_pairs(
                with_default_prefixes(empty_table()),
                prefix_pairs_bytes(pairs),
                pairs.len() as int,
            )[k] == m[k],
{
    let bytes = prefix_pairs_bytes(pairs);
    let payload = prefix_block_payload(pairs);
    let compressed = zlib_compressed(encode_prefix_pairs(bytes));
    assert(payload == u32_le_bytes(pairs.len() as u32) + compressed);
    lemma_u32_le_roundtrip(pairs.len() as u32, compressed);
    assert(skip(payload, 4) =~= compressed);
    assert forall|k: int| 0 <= k < bytes.len() implies vstd::utf8::valid_utf8((#[trigger] bytes[k]).0)
        && vstd::utf8::valid_utf8(bytes[k].1) && bytes[k].0.len() <= usize::MAX && bytes[k].1.len() <= usize::MAX by {
        vstd::utf8::encode_utf8_valid_utf8(pairs[k].0@);
        vstd::utf8::encode_utf8_valid_utf8(pairs[k].1@);
    }
    lemma_prefix_pairs_roundtrip(bytes, Seq::empty());
    assert(encode_prefix_pairs(bytes) + Seq::<u8>::empty() =~= encode_prefix_pairs(bytes));
    assert forall|i: int| 0 <= i < bytes.len() implies decode_utf8((#[trigger] bytes[i]).1) == pairs[i].1@ && decode_utf8(
        bytes[i].0,
    ) == pairs[i].0@ by {
        vstd::utf8::encode_utf8_decode_utf8(pairs[i].0@);
        vstd::utf8::encode_utf8_decode_utf8(pairs[i].1@);
    }
    assert forall|k: Seq<char>| #[trigger] m.contains_key(k) implies exists|i: int|
        0 <= i < bytes.len() && decode_utf8(#[trigger] bytes[i].1) == k by {
        let i = choose|i: int| 0 <= i < pairs.len() && #[trigger] pairs[i].1@ == k;
        assert(decode_utf8(bytes[i].1) == pairs[i].1@);
    }
    assert forall|i: int, j: int| 0 <= i < j < bytes.len() implies decode_utf8(#[trigger] bytes[i].1) != decode_utf8(
        #[trigger] bytes[j].1,
    ) by {
        assert(decode_utf8(bytes[i].1) == pairs[i].1@);
        assert(decode_utf8(bytes[j].1) == pairs[j].1@);
    }
    assert forall|i: int| 0 <= i < bytes.len() implies m.contains_key(decode_utf8(#[trigger] bytes[i].1))
        && m[decode_utf8(bytes[i].1)] == decode_utf8(bytes[i].0) by {
        assert(decode_utf8(bytes[i].1) == pairs[i].1@);
        assert(decode_utf8(bytes[i].0) == pairs[i].0@);
    }
    lemma_stored_pairs_restored(m, with_default_prefixes(empty_table()), bytes);
}

/// Past a stretch without `#` or `/`, the last delimiter is the one before
/// it.
proof fn lemma_last_delimiter_skips(s: Seq<char>, b: int, k: int)
    requires
        0 <= b <= k <= s.len(),
        forall|i: int| b <= i < s.len() ==> s[i] != '#' && s[i] != '/',
    ensures
        last_delimiter(s, k, false) == last_delimiter(s, b, false),
    decreases k,
{
    if k > b {
        lemma_last_delimiter_skips(s, b, k - 1);
    }
}

/// Law: an IRI is shortened at its last `#` or `/`: when the part up to and
/// including that character is a namespace of the table, the result is the
/// namespace's prefix, `:` and the rest; when it is not, there is no result.
pub proof fn lemma_prefixed_opt_at_last_delimiter(m: Map<Seq<char>, Seq<char>>, base: Seq<char>, local: Seq<char>)
    requires
        base.len() > 0,
        base.last() == '#' || base.last() == '/',
        forall|i: int| 0 <= i < local.len() ==> local[i] != '#' && local[i] != '/',
    ensures
        m.contains_key(base) ==> spec_prefixed_opt(m, base + local) == Some(m[base] + seq![':'] + local),
        !m.contains_key(base) ==> spec_prefixed_opt(m, base + local) is None,
        m.contains_key(base) ==> spec_prefixed(m, base + local) == m[base] + seq![':'] + local,
{
    let s = base + local;
    let b = base.len() as int;
    assert forall|i: int| b <= i < s.len() implies s[i] != '#' && s[i] != '/' by {
        assert(s[i] == local[i - b]);
    }
    lemma_last_delimiter_skips(s, b, s.len() as int);
    assert(s[b - 1] == base.last());
    assert(last_delimiter(s, b, false) == b - 1);
    assert(s.subrange(0, b) =~= base);
    assert(s.subrange(b, s.len() as int) =~= local);
    reveal_strlit(":");
    assert(":"@ =~= seq![':']);
}

/// Law: a prefixed name `P:local` whose prefix `P` (without `:`) names the
/// base IRI `base` expands to `base` followed by `local`, whatever `local`
/// holds (a `:` in it included); when no base IRI has prefix `P` it does
/// not expand.
pub proof fn lemma_full_expands(m: Map<Seq<char>, Seq<char>>, prefix: Seq<char>, local: Seq<char>)
    requires
        injective(m),
        !prefix.contains(':'),
    ensures
        forall|base: Seq<char>|
            #[trigger] m.contains_key(base) && m[base] == prefix ==> spec_full(m, prefix + seq![':'] + local) == Some(
                base + local,
            ),
        (forall|base: Seq<char>| #[trigger] m.contains_key(base) ==> m[base] != prefix) ==> spec_full(
            m,
            prefix + seq![':'] + local,
        ) is None,
{
    reveal_strlit(":");
    assert(":"@ =~= seq![':']);
    assert forall|base: Seq<char>| #[trigger] m.contains_key(base) && m[base] == prefix implies spec_full(
        m,
        prefix + seq![':'] + local,
    ) == Some(base + local) by {
        lemma_full_of_prefixed(m, base, local);
    }
    let name = prefix + seq![':'] + local;
    lemma_first_colon(prefix, local, 0);
    let c = prefix.len() as int;
    assert(name.subrange(0, c) =~= prefix);
}

} // verus!
