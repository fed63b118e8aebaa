//! Loading of RDF data: how each parsed triple enters the node cache and
//! the string tables.

use vstd::prelude::*;
use vstd::string::StringSliceAdditionalSpecFns;
use vstd::utf8::encode_utf8;

use crate::nobject::{
    empty_node, has_key, key_index, keys_unique, lemma_interned, lemma_key_index, interned_after, interned_index,
    Indexers, Literal, NObject, NObjectView, NodeCache, NodeData,
};
use crate::prefix_manager::{spec_prefixed, PrefixManager};
use crate::string_indexer::IndexSpan;
use crate::IriIndex;

verus! {

/// Literal values of `xsd:string` shorter than this many bytes are kept in
/// the short literal table; longer ones go to the literal cache.
pub const SHORT_STR_LITERAL_LEN: usize = 32;

/// Handle of the RDF loader.
pub struct RDFWrap {}

impl RDFWrap {
    pub fn empty() -> Self {
        RDFWrap {}
    }
}

/// The RDF syntaxes the loader reads.
#[derive(Debug, Clone, Copy, PartialEq, Eq, Structural)]
pub enum RdfFormat {
    Turtle,
    RdfXml,
    NTriples,
    TriG,
    NQuads,
}

/// The syntax that a file extension names, if the loader reads it.
pub open spec fn format_of_extension(ext: Seq<char>) -> Option<RdfFormat> {
    if ext == seq!['t', 't', 'l'] {
        Some(RdfFormat::Turtle)
    } else if ext == seq!['r', 'd', 'f'] || ext == seq!['x', 'm', 'l'] {
        Some(RdfFormat::RdfXml)
    } else if ext == seq!['n', 't'] {
        Some(RdfFormat::NTriples)
    } else if ext == seq!['t', 'r', 'i', 'g'] {
        Some(RdfFormat::TriG)
    } else if ext == seq!['n', 'q'] {
        Some(RdfFormat::NQuads)
    } else {
        None
    }
}

/// Whether the text is exactly the given characters.
fn text_is(text: &String, chars: &Vec<char>) -> (res: bool)
    ensures
        res == (text@ == chars@),
{
    let n = text.unicode_len();
    if n != chars.len() {
        return false;
    }
    let mut k: usize = 0;
    while k < n
        invariant
            k <= n,
            n == text@.len(),
            n == chars@.len(),
            forall|m: int| 0 <= m < k ==> text@[m] == chars@[m],
        decreases n - k,
    {
        if text.get_char(k) != chars[k] {
            return false;
        }
        k += 1;
    }
    assert(text@ =~= chars@);
    true
}

/// The syntax to read a file with, by its extension: `ttl` is Turtle,
/// `rdf` and `xml` are RDF/XML, `nt` is N-Triples, `trig` is TriG and `nq`
/// is N-Quads; any other extension is not read (`None`).
pub fn rdf_format_for_extension(ext: &str) -> (res: Option<RdfFormat>)
    ensures
        res == format_of_extension(ext@),
{
    let text = ext.to_owned();
    if text_is(&text, &vec!['t', 't', 'l']) {
        Some(RdfFormat::Turtle)
    } else if text_is(&text, &vec!['r', 'd', 'f']) || text_is(&text, &vec!['x', 'm', 'l']) {
        Some(RdfFormat::RdfXml)
    } else if text_is(&text, &vec!['n', 't']) {
        Some(RdfFormat::NTriples)
    } else if text_is(&text, &vec!['t', 'r', 'i', 'g']) {
        Some(RdfFormat::TriG)
    } else if text_is(&text, &vec!['n', 'q']) {
        Some(RdfFormat::NQuads)
    } else {
        None
    }
}

/// The index of the last subject looked up, with its IRI.
pub struct IndexCache {
    pub index: IriIndex,
    pub iri: String,
}

/// The subject of a triple.
pub enum SubjectTerm {
    NamedNode(String),
    BlankNode(String),
}

/// A literal: its lexical value, its language tag if it has one, and its
/// datatype IRI.
pub struct LiteralTerm {
    pub value: String,
    pub language: Option<String>,
    pub datatype: String,
}

/// The object of a triple.
pub enum ObjectTerm {
    NamedNode(String),
    BlankNode(String),
    Literal(LiteralTerm),
}

/// A parsed triple, its IRIs in full.
pub struct TripleTerms {
    pub subject: SubjectTerm,
    pub predicate: String,
    pub object: ObjectTerm,
}

/// The IRI of `rdf:type`.
pub open spec fn rdf_type_iri() -> Seq<char> {
    "http://www.w3.org/1999/02/22-rdf-syntax-ns#type"@
}

/// The IRI of `xsd:string`.
pub open spec fn xsd_string_iri() -> Seq<char> {
    "http://www.w3.org/2001/XMLSchema#string"@
}

/// The loaded data as the ingestion sees it: the node entries, the string
/// tables, the literal cache's bytes and the number of triples taken.
pub struct IngestView {
    pub nodes: Seq<(Seq<char>, NObjectView)>,
    pub types: Seq<Seq<char>>,
    pub predicates: Seq<Seq<char>>,
    pub languages: Seq<Seq<char>>,
    pub datatypes: Seq<Seq<char>>,
    pub short_literals: Seq<Seq<char>>,
    pub literals: Seq<u8>,
    pub count: int,
}

/// The view of a triple count, string tables and node cache.
pub open spec fn ingest_view(count: u32, indexer: Indexers, cache: NodeCache) -> IngestView {
    IngestView {
        nodes: cache@,
        types: indexer.type_indexer@,
        predicates: indexer.predicate_indexer@,
        languages: indexer.language_indexer@,
        datatypes: indexer.datatype_indexer@,
        short_literals: indexer.short_literal_indexer@,
        literals: indexer.literal_cache.bytes(),
        count: count as int,
    }
}

/// The language tags of a filter.
pub open spec fn filter_view(filter: Seq<String>) -> Seq<Seq<char>> {
    filter.map_values(|f: String| f@)
}

/// The nodes with the entry at `i` given a new node.
pub open spec fn set_node(nodes: Seq<(Seq<char>, NObjectView)>, i: int, n: NObjectView) -> Seq<(Seq<char>, NObjectView)> {
    nodes.update(i, (nodes[i].0, n))
}

/// The nodes after looking up a key: unchanged when held, else with an
/// empty node added last.
pub open spec fn node_after(nodes: Seq<(Seq<char>, NObjectView)>, key: Seq<char>, is_blank_node: bool) -> Seq<(Seq<char>, NObjectView)> {
    if has_key(nodes, key) {
        nodes
    } else {
        nodes.push((key, empty_node(is_blank_node)))
    }
}

/// The index of a key: its position when held, else the number of nodes.
pub open spec fn node_slot(nodes: Seq<(Seq<char>, NObjectView)>, key: Seq<char>) -> int {
    if has_key(nodes, key) {
        key_index(nodes, key)
    } else {
        nodes.len() as int
    }
}

/// A node seen as a subject, with the type added unless it has it.
pub open spec fn with_type(n: NObjectView, t: int) -> NObjectView {
    NObjectView {
        types: if n.types.contains(t as usize) {
            n.types
        } else {
            n.types.push(t as usize)
        },
        properties: n.properties,
        references: n.references,
        reverse_references: n.reverse_references,
        is_blank_node: n.is_blank_node,
        has_subject: true,
    }
}

/// A node seen as a subject, with a reference added.
pub open spec fn with_reference(n: NObjectView, p: int, r: int) -> NObjectView {
    NObjectView {
        types: n.types,
        properties: n.properties,
        references: n.references.push((p as usize, r as usize)),
        reverse_references: n.reverse_references,
        is_blank_node: n.is_blank_node,
        has_subject: true,
    }
}

/// A node with a reverse reference added.
pub open spec fn with_reverse(n: NObjectView, p: int, s: int) -> NObjectView {
    NObjectView {
        types: n.types,
        properties: n.properties,
        references: n.references,
        reverse_references: n.reverse_references.push((p as usize, s as usize)),
        is_blank_node: n.is_blank_node,
        has_subject: n.has_subject,
    }
}

/// A node seen as a subject, with a property added.
pub open spec fn with_property(n: NObjectView, p: int, l: Literal) -> NObjectView {
    NObjectView {
        types: n.types,
        properties: n.properties.push((p as usize, l)),
        references: n.references,
        reverse_references: n.reverse_references,
        is_blank_node: n.is_blank_node,
        has_subject: true,
    }
}

/// A literal whose language tag is not in a non-empty filter is left out.
pub open spec fn literal_skipped(filter: Seq<Seq<char>>, lit: LiteralTerm) -> bool {
    match lit.language {
        Some(language) => filter.len() > 0 && forall|k: int| 0 <= k < filter.len() ==> filter[k] != language@,
        None => false,
    }
}

/// A reference from node `s` by predicate `p` to the node with `key`: the
/// referenced node is added when new, `s` gets the reference and the
/// referenced node the reverse one.
pub open spec fn reference_step(st: IngestView, s: int, p: int, key: Seq<char>, is_blank_node: bool) -> IngestView {
    let nodes1 = node_after(st.nodes, key, is_blank_node);
    let r = node_slot(st.nodes, key);
    let nodes2 = set_node(nodes1, s, with_reference(nodes1[s].1, p, r));
    let nodes3 = set_node(nodes2, r, with_reverse(nodes2[r].1, p, s));
    IngestView { nodes: nodes3, count: st.count + 1, ..st }
}

/// A literal property of node `s` by predicate `p`: a language string or a
/// typed value goes to the literal cache (with its language or datatype
/// index), an `xsd:string` to the short literal table when short, else to
/// the literal cache.
pub open spec fn literal_step(st: IngestView, s: int, p: int, lit: LiteralTerm, pm: Map<Seq<char>, Seq<char>>) -> IngestView {
    let value = lit.value@;
    let bytes = encode_utf8(value);
    let span = IndexSpan { start: st.literals.len() as u32, len: bytes.len() as u32 };
    let n = st.nodes[s].1;
    match lit.language {
        Some(language) => {
            let l = interned_index(st.languages, language@);
            IngestView {
                nodes: set_node(st.nodes, s, with_property(n, p, Literal::LangString(l as usize, span))),
                languages: interned_after(st.languages, language@),
                literals: st.literals + bytes,
                count: st.count + 1,
                ..st
            }
        },
        None => if lit.datatype@ == xsd_string_iri() {
            if bytes.len() < SHORT_STR_LITERAL_LEN {
                let k = interned_index(st.short_literals, value);
                IngestView {
                    nodes: set_node(st.nodes, s, with_property(n, p, Literal::StringShort(k as usize))),
                    short_literals: interned_after(st.short_literals, value),
                    count: st.count + 1,
                    ..st
                }
            } else {
                IngestView {
                    nodes: set_node(st.nodes, s, with_property(n, p, Literal::String(span))),
                    literals: st.literals + bytes,
                    count: st.count + 1,
                    ..st
                }
            }
        } else {
            let dkey = spec_prefixed(pm, lit.datatype@);
            let d = interned_index(st.datatypes, dkey);
            IngestView {
                nodes: set_node(st.nodes, s, with_property(n, p, Literal::TypedString(d as usize, span))),
                datatypes: interned_after(st.datatypes, dkey),
                literals: st.literals + bytes,
                count: st.count + 1,
                ..st
            }
        },
    }
}

/// What the predicate and object of a triple do to the data, for the
/// subject node `s`: `rdf:type` with a named object adds the (prefixed)
/// type; any other predicate is interned (prefixed) and a named or blank
/// object becomes a reference, a literal a property unless the language
/// filter leaves it out.
pub open spec fn object_step(
    st: IngestView,
    s: int,
    predicate: Seq<char>,
    object: ObjectTerm,
    filter: Seq<Seq<char>>,
    pm: Map<Seq<char>, Seq<char>>,
) -> IngestView {
    if predicate == rdf_type_iri() {
        match object {
            ObjectTerm::NamedNode(o) => {
                let key = spec_prefixed(pm, o@);
                let t = interned_index(st.types, key);
                IngestView {
                    nodes: set_node(st.nodes, s, with_type(st.nodes[s].1, t)),
                    types: interned_after(st.types, key),
                    count: st.count + 1,
                    ..st
                }
            },
            _ => st,
        }
    } else {
        let pkey = spec_prefixed(pm, predicate);
        let p = interned_index(st.predicates, pkey);
        let st1 = IngestView { predicates: interned_after(st.predicates, pkey), ..st };
        match object {
            ObjectTerm::NamedNode(o) => reference_step(st1, s, p, spec_prefixed(pm, o@), false),
            ObjectTerm::BlankNode(b) => reference_step(st1, s, p, b@, true),
            ObjectTerm::Literal(lit) => if literal_skipped(filter, lit) {
                st1
            } else {
                literal_step(st1, s, p, lit, pm)
            },
        }
    }
}

/// The tables and the count have room for one more triple with this
/// object.
pub open spec fn has_room(st: IngestView, object: ObjectTerm) -> bool {
    &&& st.count < u32::MAX
    &&& st.types.len() < u32::MAX
    &&& st.predicates.len() < u32::MAX
    &&& st.languages.len() < u32::MAX
    &&& st.datatypes.len() < u32::MAX
    &&& st.short_literals.len() < u32::MAX
    &&& object matches ObjectTerm::Literal(lit) ==> st.literals.len() + encode_utf8(lit.value@).len() <= u32::MAX
}

/// The tables a literal goes to have room for it.
pub open spec fn literal_room(st: IngestView, lit: LiteralTerm) -> bool {
    &&& st.languages.len() < u32::MAX
    &&& st.datatypes.len() < u32::MAX
    &&& st.short_literals.len() < u32::MAX
    &&& st.literals.len() + encode_utf8(lit.value@).len() <= u32::MAX
}

/// Whether the list holds the index.
fn contains_index(v: &Vec<IriIndex>, x: IriIndex) -> (res: bool)
    ensures
        res == v@.contains(x),
{
    let mut i: usize = 0;
    while i < v.len()
        invariant
            i <= v@.len(),
            forall|k: int| 0 <= k < i ==> v@[k] != x,
        decreases v@.len() - i,
    {
        if v[i] == x {
            return true;
        }
        i += 1;
    }
    false
}

/// Whether some filter entry equals the language tag.
fn filter_has(filter: &[String], language: &String) -> (res: bool)
    ensures
        res == exists|k: int| 0 <= k < filter@.len() && filter@[k]@ == language@,
{
    let mut i: usize = 0;
    while i < filter.len()
        invariant
            i <= filter@.len(),
            forall|k: int| 0 <= k < i ==> filter@[k]@ != language@,
        decreases filter@.len() - i,
    {
        if filter[i] == *language {
            return true;
        }
        i += 1;
    }
    false
}

/// Adds what the predicate and object of a triple say about the subject
/// node `node_index` (see `object_step`).
fn add_predicate_object(
    triples_count: &mut u32,
    indexer: &mut Indexers,
    cache: &mut NodeCache,
    node_index: IriIndex,
    predicate: &String,
    object: &ObjectTerm,
    language_filter: &[String],
    prefix_manager: &PrefixManager,
)
    requires
        old(indexer).wf(),
        old(cache).wf(),
        node_index < old(cache)@.len(),
        has_room(ingest_view(*old(triples_count), *old(indexer), *old(cache)), *object),
    ensures
        final(indexer).wf(),
        final(cache).wf(),
        ingest_view(*final(triples_count), *final(indexer), *final(cache)) == object_step(
            ingest_view(*old(triples_count), *old(indexer), *old(cache)),
            node_index as int,
            predicate@,
            *object,
            filter_view(language_filter@),
            prefix_manager@,
        ),
{
    let ghost st = ingest_view(*triples_count, *indexer, *cache);
    let rdf_type = String::from_str("http://www.w3.org/1999/02/22-rdf-syntax-ns#type");
    if *predicate == rdf_type {
        match object {
            ObjectTerm::NamedNode(named_object) => {
                let type_iri = prefix_manager.get_prefixed(named_object.as_str());
                let type_index = indexer.get_type_index(type_iri.as_str());
                let node = cache.get_node_by_index_mut(node_index);
                node.has_subject = true;
                if !contains_index(&node.types, type_index) {
                    node.types.push(type_index);
                }
                *triples_count += 1;
                proof {
                    assert(cache@ =~= set_node(st.nodes, node_index as int, with_type(st.nodes[node_index as int].1, type_index as int)));
                    assert(ingest_view(*triples_count, *indexer, *cache) == object_step(st, node_index as int, predicate@, *object, filter_view(language_filter@), prefix_manager@));
                }
            },
            _ => {},
        }
    } else {
        let predicate_iri = prefix_manager.get_prefixed(predicate.as_str());
        let predicate_index = indexer.get_predicate_index(predicate_iri.as_str());
        let ghost st1 = ingest_view(*triples_count, *indexer, *cache);
        match object {
            ObjectTerm::NamedNode(named_object) => {
                let reference_iri = prefix_manager.get_prefixed(named_object.as_str());
                let reference_index = cache.get_node_index_or_insert(reference_iri.as_str(), false);
                add_reference(cache, node_index, predicate_index, reference_index);
                *triples_count += 1;
                proof {
                    assert(reference_index == node_slot(st1.nodes, reference_iri@));
                    assert(ingest_view(*triples_count, *indexer, *cache) == object_step(st, node_index as int, predicate@, *object, filter_view(language_filter@), prefix_manager@));
                }
            },
            ObjectTerm::BlankNode(blank_node) => {
                let reference_index = cache.get_node_index_or_insert(blank_node.as_str(), true);
                add_reference(cache, node_index, predicate_index, reference_index);
                *triples_count += 1;
                proof {
                    assert(reference_index == node_slot(st1.nodes, blank_node@));
                    assert(ingest_view(*triples_count, *indexer, *cache) == object_step(st, node_index as int, predicate@, *object, filter_view(language_filter@), prefix_manager@));
                }
            },
            ObjectTerm::Literal(literal) => {
                let mut skip = false;
                if language_filter.len() > 0 {
                    match &literal.language {
                        Some(language) => {
                            if !filter_has(language_filter, language) {
                                skip = true;
                            }
                        },
                        None => {},
                    }
                }
                proof {
                    let fv = filter_view(language_filter@);
                    assert(fv.len() == language_filter@.len());
                    assert forall|k: int| 0 <= k < fv.len() implies fv[k] == language_filter@[k]@ by {}
                }
                if !skip {
                    add_literal(indexer, cache, node_index, predicate_index, literal, prefix_manager);
                    *triples_count += 1;
                    proof {
                        match &literal.language {
                            Some(language) => {
                                if language_filter@.len() > 0 {
                                    let k = choose|k: int| 0 <= k < language_filter@.len() && language_filter@[k]@ == language@;
                                    assert(filter_view(language_filter@)[k] == language@);
                                }
                            },
                            None => {},
                        }
                        assert(!literal_skipped(filter_view(language_filter@), *literal));
                        assert(ingest_view(*triples_count, *indexer, *cache) == object_step(st, node_index as int, predicate@, *object, filter_view(language_filter@), prefix_manager@));
                    }
                } else {
                    proof {
                        assert(literal_skipped(filter_view(language_filter@), *literal));
                        assert(ingest_view(*triples_count, *indexer, *cache) == object_step(st, node_index as int, predicate@, *object, filter_view(language_filter@), prefix_manager@));
                    }
                }
            },
        }
    }
}

/// Node `s` references node `r` by predicate `p`, and `r` gets the reverse
/// reference.
fn add_reference(cache: &mut NodeCache, s: IriIndex, p: IriIndex, r: IriIndex)
    requires
        old(cache).wf(),
        s < old(cache)@.len(),
        r < old(cache)@.len(),
    ensures
        final(cache).wf(),
        ({
            let nodes2 = set_node(old(cache)@, s as int, with_reference(old(cache)@[s as int].1, p as int, r as int));
            final(cache)@ == set_node(nodes2, r as int, with_reverse(nodes2[r as int].1, p as int, s as int))
        }),
{
    let ghost nodes2 = set_node(cache@, s as int, with_reference(cache@[s as int].1, p as int, r as int));
    let node = cache.get_node_by_index_mut(s);
    node.references.push((p, r));
    node.has_subject = true;
    proof {
        assert(cache@ =~= nodes2);
    }
    let ref_node = cache.get_node_by_index_mut(r);
    ref_node.reverse_references.push((p, s));
    proof {
        assert(cache@ =~= set_node(nodes2, r as int, with_reverse(nodes2[r as int].1, p as int, s as int)));
        assert forall|i: int, j: int| 0 <= i < j < cache@.len() implies (#[trigger] cache@[i]).0 != (#[trigger] cache@[j]).0 by {
            assert(old(cache)@[i].0 != old(cache)@[j].0);
        }
    }
}

/// Node `s` gets the literal as a property by predicate `p` (see
/// `literal_step`).
fn add_literal(
    indexer: &mut Indexers,
    cache: &mut NodeCache,
    s: IriIndex,
    p: IriIndex,
    literal: &LiteralTerm,
    prefix_manager: &PrefixManager,
)
    requires
        old(indexer).wf(),
        old(cache).wf(),
        s < old(cache)@.len(),
        literal_room(ingest_view(0, *old(indexer), *old(cache)), *literal),
    ensures
        final(indexer).wf(),
        final(cache).wf(),
        ({
            let st = ingest_view(0, *old(indexer), *old(cache));
            let after = literal_step(st, s as int, p as int, *literal, prefix_manager@);
            ingest_view(0, *final(indexer), *final(cache)) == IngestView { count: 0, ..after }
        }),
{
    let ghost st = ingest_view(0, *indexer, *cache);
    let ghost n = cache@[s as int].1;
    let value = literal.value.as_str();
    let lit = match &literal.language {
        Some(language) => {
            let language_index = indexer.get_language_index(language.as_str());
            let span = indexer.literal_cache.push_str(value);
            Literal::LangString(language_index, span)
        },
        None => {
            let xsd_string = String::from_str("http://www.w3.org/2001/XMLSchema#string");
            if literal.datatype == xsd_string {
                if value.len() < SHORT_STR_LITERAL_LEN {
                    let ghost before = indexer.short_literal_indexer@;
                    let index = indexer.short_literal_indexer.get_index(value);
                    proof {
                        lemma_interned(before, indexer.short_literal_indexer@, value@, index as int);
                    }
                    Literal::StringShort(index)
                } else {
                    let span = indexer.literal_cache.push_str(value);
                    Literal::String(span)
                }
            } else {
                let datatype_prefixed = prefix_manager.get_prefixed(literal.datatype.as_str());
                let data_type_index = indexer.get_data_type_index(datatype_prefixed.as_str());
                let span = indexer.literal_cache.push_str(value);
                Literal::TypedString(data_type_index, span)
            }
        },
    };
    let node = cache.get_node_by_index_mut(s);
    node.has_subject = true;
    node.properties.push((p, lit));
    proof {
        assert(cache@ =~= set_node(st.nodes, s as int, with_property(n, p as int, lit)));
        assert forall|i: int, j: int| 0 <= i < j < cache@.len() implies (#[trigger] cache@[i]).0 != (#[trigger] cache@[j]).0 by {
            assert(old(cache)@[i].0 != old(cache)@[j].0);
        }
    }
}

/// The key of a subject: a named node's IRI written with a known prefix,
/// a blank node's label as it is.
pub open spec fn subject_key(subject: SubjectTerm, pm: Map<Seq<char>, Seq<char>>) -> Seq<char> {
    match subject {
        SubjectTerm::NamedNode(iri) => spec_prefixed(pm, iri@),
        SubjectTerm::BlankNode(label) => label@,
    }
}

/// The IRI or label of a subject as parsed.
pub open spec fn subject_text(subject: SubjectTerm) -> Seq<char> {
    match subject {
        SubjectTerm::NamedNode(iri) => iri@,
        SubjectTerm::BlankNode(label) => label@,
    }
}

/// What a triple does to the data: its subject's node is added when new,
/// then the predicate and object act on it (see `object_step`).
pub open spec fn triple_step(st: IngestView, t: TripleTerms, filter: Seq<Seq<char>>, pm: Map<Seq<char>, Seq<char>>) -> IngestView {
    let key = subject_key(t.subject, pm);
    let s = node_slot(st.nodes, key);
    let st1 = IngestView { nodes: node_after(st.nodes, key, t.subject is BlankNode), ..st };
    object_step(st1, s, t.predicate@, t.object, filter, pm)
}

/// The index cache is empty or names the node at its index.
pub open spec fn index_cache_ok(nodes: Seq<(Seq<char>, NObjectView)>, ic: IndexCache) -> bool {
    ic.iri@.len() == 0 || ((ic.index as int) < nodes.len() && nodes[ic.index as int].0 == ic.iri@)
}

/// Every node keeps its position and IRI.
pub open spec fn keys_kept(a: Seq<(Seq<char>, NObjectView)>, b: Seq<(Seq<char>, NObjectView)>) -> bool {
    &&& a.len() <= b.len()
    &&& forall|i: int| 0 <= i < a.len() ==> (#[trigger] b[i]).0 == a[i].0
}

/// A non-empty IRI stays non-empty when written with a prefix.
proof fn lemma_prefixed_nonempty(pm: Map<Seq<char>, Seq<char>>, iri: Seq<char>)
    requires
        iri.len() > 0,
    ensures
        spec_prefixed(pm, iri).len() > 0,
{
    reveal_strlit(":");
}

/// The nodes after an object step keep the positions and IRIs they had.
proof fn lemma_object_step_keeps_keys(
    st: IngestView,
    s: int,
    predicate: Seq<char>,
    object: ObjectTerm,
    filter: Seq<Seq<char>>,
    pm: Map<Seq<char>, Seq<char>>,
)
    requires
        0 <= s < st.nodes.len(),
    ensures
        keys_kept(st.nodes, object_step(st, s, predicate, object, filter, pm).nodes),
{
    let after = object_step(st, s, predicate, object, filter, pm).nodes;
    assert forall|i: int| 0 <= i < st.nodes.len() implies (#[trigger] after[i]).0 == st.nodes[i].0 by {
        if predicate != rdf_type_iri() {
            match object {
                ObjectTerm::NamedNode(o) => {
                    let key = spec_prefixed(pm, o@);
                    let nodes1 = node_after(st.nodes, key, false);
                    assert(nodes1[i] == st.nodes[i]);
                },
                ObjectTerm::BlankNode(b) => {
                    let nodes1 = node_after(st.nodes, b@, true);
                    assert(nodes1[i] == st.nodes[i]);
                },
                _ => {},
            }
        }
    }
}

/// Adds a triple: the subject's node (found through the index cache when
/// it is the last subject) gets what the predicate and object say (see
/// `triple_step`), and the index cache then names the subject.
pub fn add_triple(
    triples_count: &mut u32,
    indexer: &mut Indexers,
    cache: &mut NodeCache,
    triple: TripleTerms,
    index_cache: &mut IndexCache,
    language_filter: &[String],
    prefix_manager: &PrefixManager,
)
    requires
        old(indexer).wf(),
        old(cache).wf(),
        index_cache_ok(old(cache)@, *old(index_cache)),
        subject_text(triple.subject).len() > 0,
        has_room(ingest_view(*old(triples_count), *old(indexer), *old(cache)), triple.object),
    ensures
        final(indexer).wf(),
        final(cache).wf(),
        final(index_cache).iri@ == subject_key(triple.subject, prefix_manager@),
        index_cache_ok(final(cache)@, *final(index_cache)),
        ingest_view(*final(triples_count), *final(indexer), *final(cache)) == triple_step(
            ingest_view(*old(triples_count), *old(indexer), *old(cache)),
            triple,
            filter_view(language_filter@),
            prefix_manager@,
        ),
{
    let ghost st = ingest_view(*triples_count, *indexer, *cache);
    let (key, is_blank_node) = match &triple.subject {
        SubjectTerm::BlankNode(label) => (label.clone(), true),
        SubjectTerm::NamedNode(iri) => (prefix_manager.get_prefixed(iri.as_str()), false),
    };
    proof {
        match triple.subject {
            SubjectTerm::NamedNode(iri) => lemma_prefixed_nonempty(prefix_manager@, iri@),
            SubjectTerm::BlankNode(_) => {},
        }
        assert(key@ == subject_key(triple.subject, prefix_manager@));
    }
    if index_cache.iri != key {
        index_cache.index = cache.get_node_index_or_insert(key.as_str(), is_blank_node);
        index_cache.iri = key;
    } else {
        proof {
            lemma_key_index(cache@, key@, index_cache.index as int);
            assert(cache@ == node_after(st.nodes, key@, is_blank_node));
        }
    }
    let node_index = index_cache.index;
    let ghost st1 = ingest_view(*triples_count, *indexer, *cache);
    proof {
        assert(st1 == IngestView { nodes: node_after(st.nodes, subject_key(triple.subject, prefix_manager@), triple.subject is BlankNode), ..st });
        assert(node_index == node_slot(st.nodes, subject_key(triple.subject, prefix_manager@)));
        lemma_object_step_keeps_keys(st1, node_index as int, triple.predicate@, triple.object, filter_view(language_filter@), prefix_manager@);
    }
    add_predicate_object(
        triples_count,
        indexer,
        cache,
        node_index,
        &triple.predicate,
        &triple.object,
        language_filter,
        prefix_manager,
    );
    proof {
        assert(cache@[node_index as int].0 == st1.nodes[node_index as int].0);
    }
}

/// Every reference (p, j) of node i has the reverse reference (p, i) at
/// node j, and every reverse reference (p, j) of node i the reference
/// (p, i) at node j.
pub open spec fn references_mirrored(nodes: Seq<(Seq<char>, NObjectView)>) -> bool {
    &&& forall|i: int, k: int|
        0 <= i < nodes.len() && 0 <= k < nodes[i].1.references.len() ==> ((#[trigger] nodes[i].1.references[k]).1 as int)
            < nodes.len() && nodes[nodes[i].1.references[k].1 as int].1.reverse_references.contains(
            (nodes[i].1.references[k].0, i as usize),
        )
    &&& forall|i: int, k: int|
        0 <= i < nodes.len() && 0 <= k < nodes[i].1.reverse_references.len() ==> ((
        #[trigger] nodes[i].1.reverse_references[k]).1 as int) < nodes.len()
            && nodes[nodes[i].1.reverse_references[k].1 as int].1.references.contains(
            (nodes[i].1.reverse_references[k].0, i as usize),
        )
}

/// The nodes of `b` extend those of `a`: the same positions, each list of
/// references and reverse references at least as long and starting with
/// the old one.
pub open spec fn references_extend(a: Seq<(Seq<char>, NObjectView)>, b: Seq<(Seq<char>, NObjectView)>) -> bool {
    &&& a.len() <= b.len()
    &&& forall|i: int| 0 <= i < a.len() ==> a[i].1.references.is_prefix_of(#[trigger] b[i].1.references)
    &&& forall|i: int| 0 <= i < a.len() ==> a[i].1.reverse_references.is_prefix_of(#[trigger] b[i].1.reverse_references)
}

/// Changes that leave every list of references alone, and add only nodes
/// without references, keep references mirrored.
proof fn lemma_mirror_same_references(a: Seq<(Seq<char>, NObjectView)>, b: Seq<(Seq<char>, NObjectView)>)
    requires
        references_mirrored(a),
        a.len() <= b.len(),
        forall|i: int| 0 <= i < a.len() ==> (#[trigger] b[i]).1.references == a[i].1.references && b[i].1.reverse_references
            == a[i].1.reverse_references,
        forall|i: int| a.len() <= i < b.len() ==> (#[trigger] b[i]).1.references.len() == 0 && b[i].1.reverse_references.len()
            == 0,
    ensures
        references_mirrored(b),
{
    assert forall|i: int, k: int| 0 <= i < b.len() && 0 <= k < b[i].1.references.len() implies ((
    #[trigger] b[i].1.references[k]).1 as int) < b.len() && b[b[i].1.references[k].1 as int].1.reverse_references.contains(
        (b[i].1.references[k].0, i as usize),
    ) by {
        assert(a[i].1.references[k] == b[i].1.references[k]);
        let j = a[i].1.references[k].1 as int;
        assert(b[j] == b[j]);
    }
    assert forall|i: int, k: int| 0 <= i < b.len() && 0 <= k < b[i].1.reverse_references.len() implies ((
    #[trigger] b[i].1.reverse_references[k]).1 as int) < b.len() && b[b[i].1.reverse_references[k].1 as int].1.references.contains(
        (b[i].1.reverse_references[k].0, i as usize),
    ) by {
        assert(a[i].1.reverse_references[k] == b[i].1.reverse_references[k]);
        let j = a[i].1.reverse_references[k].1 as int;
        assert(b[j] == b[j]);
    }
}

/// A reference step keeps references mirrored: the new reference and its
/// reverse are added together.
proof fn lemma_mirror_reference_step(st: IngestView, s: int, p: int, key: Seq<char>, is_blank_node: bool)
    requires
        references_mirrored(st.nodes),
        0 <= s < st.nodes.len(),
        st.nodes.len() < usize::MAX,
    ensures
        references_mirrored(reference_step(st, s, p, key, is_blank_node).nodes),
{
    let nodes1 = node_after(st.nodes, key, is_blank_node);
    let r = node_slot(st.nodes, key);
    let nodes2 = set_node(nodes1, s, with_reference(nodes1[s].1, p, r));
    let nodes3 = set_node(nodes2, r, with_reverse(nodes2[r].1, p, s));
    assert(0 <= r < nodes1.len());
    lemma_mirror_same_references(st.nodes, nodes1);
    assert(references_extend(nodes1, nodes3)) by {
        assert forall|i: int| 0 <= i < nodes1.len() implies nodes1[i].1.references.is_prefix_of(#[trigger] nodes3[i].1.references) by {
            assert(nodes1[i].1.references.is_prefix_of(nodes2[i].1.references));
        }
        assert forall|i: int| 0 <= i < nodes1.len() implies nodes1[i].1.reverse_references.is_prefix_of(
            #[trigger] nodes3[i].1.reverse_references,
        ) by {
            assert(nodes1[i].1.reverse_references.is_prefix_of(nodes2[i].1.reverse_references));
        }
    }
    let pu = p as usize;
    let ru = r as usize;
    let su = s as usize;
    // the new reference of `s` and the new reverse reference of `r`
    assert(nodes3[s].1.references.contains((pu, ru))) by {
        let refs = nodes2[s].1.references;
        assert(refs[refs.len() - 1] == (pu, ru));
        assert(nodes3[s].1.references[refs.len() - 1] == (pu, ru));
    }
    assert(nodes3[r].1.reverse_references.contains((pu, su))) by {
        let revs = nodes3[r].1.reverse_references;
        assert(revs[revs.len() - 1] == (pu, su));
    }
    assert forall|i: int, k: int| 0 <= i < nodes3.len() && 0 <= k < nodes3[i].1.references.len() implies ((
    #[trigger] nodes3[i].1.references[k]).1 as int) < nodes3.len() && nodes3[nodes3[i].1.references[k].1 as int].1.reverse_references.contains(
        (nodes3[i].1.references[k].0, i as usize),
    ) by {
        if k < nodes1[i].1.references.len() {
            assert(nodes1[i].1.references.is_prefix_of(nodes3[i].1.references));
            assert(nodes3[i].1.references[k] == nodes1[i].1.references[k]);
            let (q, j) = nodes1[i].1.references[k];
            assert(nodes1[j as int].1.reverse_references.contains((q, i as usize)));
            let w = choose|w: int| 0 <= w < nodes1[j as int].1.reverse_references.len() && nodes1[j as int].1.reverse_references[w] == (q, i as usize);
            assert(nodes1[j as int].1.reverse_references.is_prefix_of(nodes3[j as int].1.reverse_references));
            assert(nodes3[j as int].1.reverse_references[w] == (q, i as usize));
        } else {
            assert(i == s);
            assert(nodes3[i].1.references[k] == (pu, ru));
        }
    }
    assert forall|i: int, k: int| 0 <= i < nodes3.len() && 0 <= k < nodes3[i].1.reverse_references.len() implies ((
    #[trigger] nodes3[i].1.reverse_references[k]).1 as int) < nodes3.len() && nodes3[nodes3[i].1.reverse_references[k].1 as int].1.references.contains(
        (nodes3[i].1.reverse_references[k].0, i as usize),
    ) by {
        if k < nodes1[i].1.reverse_references.len() {
            assert(nodes1[i].1.reverse_references.is_prefix_of(nodes3[i].1.reverse_references));
            assert(nodes3[i].1.reverse_references[k] == nodes1[i].1.reverse_references[k]);
            let (q, j) = nodes1[i].1.reverse_references[k];
            assert(nodes1[j as int].1.references.contains((q, i as usize)));
            let w = choose|w: int| 0 <= w < nodes1[j as int].1.references.len() && nodes1[j as int].1.references[w] == (q, i as usize);
            assert(nodes1[j as int].1.references.is_prefix_of(nodes3[j as int].1.references));
            assert(nodes3[j as int].1.references[w] == (q, i as usize));
        } else {
            assert(i == r);
            assert(nodes3[i].1.reverse_references[k] == (pu, su));
        }
    }
}

/// Law: adding a triple keeps every reference paired with its reverse
/// reference.
pub proof fn lemma_triple_keeps_references_mirrored(
    st: IngestView,
    t: TripleTerms,
    filter: Seq<Seq<char>>,
    pm: Map<Seq<char>, Seq<char>>,
)
    requires
        references_mirrored(st.nodes),
        st.nodes.len() + 1 < usize::MAX,
    ensures
        references_mirrored(triple_step(st, t, filter, pm).nodes),
{
    let key = subject_key(t.subject, pm);
    let s = node_slot(st.nodes, key);
    let nodes1 = node_after(st.nodes, key, t.subject is BlankNode);
    let st1 = IngestView { nodes: nodes1, ..st };
    lemma_mirror_same_references(st.nodes, nodes1);
    assert(0 <= s < nodes1.len());
    let after = object_step(st1, s, t.predicate@, t.object, filter, pm);
    if t.predicate@ == rdf_type_iri() {
        match t.object {
            ObjectTerm::NamedNode(o) => {
                lemma_mirror_same_references(nodes1, after.nodes);
            },
            _ => {},
        }
    } else {
        let pkey = spec_prefixed(pm, t.predicate@);
        let p = interned_index(st1.predicates, pkey);
        let st2 = IngestView { predicates: interned_after(st1.predicates, pkey), ..st1 };
        match t.object {
            ObjectTerm::NamedNode(o) => lemma_mirror_reference_step(st2, s, p, spec_prefixed(pm, o@), false),
            ObjectTerm::BlankNode(b) => lemma_mirror_reference_step(st2, s, p, b@, true),
            ObjectTerm::Literal(lit) => {
                lemma_mirror_same_references(nodes1, after.nodes);
            },
        }
    }
}

/// A triple is taken (and counted) unless it gives a type by a non-named
/// object or a literal that the language filter leaves out.
pub open spec fn triple_taken(t: TripleTerms, filter: Seq<Seq<char>>) -> bool {
    if t.predicate@ == rdf_type_iri() {
        t.object is NamedNode
    } else {
        match t.object {
            ObjectTerm::Literal(lit) => !literal_skipped(filter, lit),
            _ => true,
        }
    }
}

/// Law: the language filter. A triple whose object is a literal with a
/// language tag is taken (counted, and the subject gets one more property)
/// when the filter is empty or holds the tag at any position; when the
/// filter is not empty and holds no entry equal to the tag, the triple is
/// left out: only the subject's node is added when new, and nothing is
/// counted.
pub proof fn lemma_language_filter(st: IngestView, t: TripleTerms, filter: Seq<Seq<char>>, pm: Map<Seq<char>, Seq<char>>)
    requires
        t.predicate@ != rdf_type_iri(),
        t.object matches ObjectTerm::Literal(lit) && lit.language is Some,
    ensures
        ({
            let lang = t.object->Literal_0.language.unwrap()@;
            let key = subject_key(t.subject, pm);
            let nodes1 = node_after(st.nodes, key, t.subject is BlankNode);
            let s = node_slot(st.nodes, key);
            let after = triple_step(st, t, filter, pm);
            &&& 0 <= s < nodes1.len()
            &&& (filter.len() == 0 || filter.contains(lang)) ==> after.count == st.count + 1 && after.nodes.len()
                == nodes1.len() && after.nodes[s].1.properties.len() == nodes1[s].1.properties.len() + 1
            &&& (filter.len() > 0 && !filter.contains(lang)) ==> after.count == st.count && after.nodes == nodes1
        }),
{
    let lit = t.object->Literal_0;
    let lang = lit.language.unwrap()@;
    let key = subject_key(t.subject, pm);
    let nodes1 = node_after(st.nodes, key, t.subject is BlankNode);
    if has_key(st.nodes, key) {
        let k = key_index(st.nodes, key);
        assert(0 <= k < st.nodes.len());
    }
    if filter.contains(lang) {
        let k = choose|k: int| 0 <= k < filter.len() && filter[k] == lang;
        assert(!literal_skipped(filter, lit));
    }
    if filter.len() > 0 && !filter.contains(lang) {
        assert forall|k: int| 0 <= k < filter.len() implies filter[k] != lang by {
            if filter[k] == lang {
                assert(filter.contains(lang));
            }
        }
        assert(literal_skipped(filter, lit));
    }
}

/// Law: where a plain `xsd:string` literal's text goes. A text of fewer
/// than `SHORT_STR_LITERAL_LEN` bytes becomes a short literal whose table
/// entry is the text; a longer one is appended to the literal cache and
/// the property's span covers exactly its bytes there. Either way the
/// subject's node gets the property last and the triple is counted.
pub proof fn lemma_string_literal_storage(st: IngestView, t: TripleTerms, filter: Seq<Seq<char>>, pm: Map<Seq<char>, Seq<char>>)
    requires
        t.predicate@ != rdf_type_iri(),
        t.object matches ObjectTerm::Literal(lit) && lit.language is None && lit.datatype@ == xsd_string_iri(),
        has_room(st, t.object),
    ensures
        ({
            let value = t.object->Literal_0.value@;
            let bytes = encode_utf8(value);
            let key = subject_key(t.subject, pm);
            let nodes1 = node_after(st.nodes, key, t.subject is BlankNode);
            let s = node_slot(st.nodes, key);
            let after = triple_step(st, t, filter, pm);
            let props = after.nodes[s].1.properties;
            &&& 0 <= s < nodes1.len()
            &&& after.count == st.count + 1
            &&& props.len() == nodes1[s].1.properties.len() + 1
            &&& bytes.len() < SHORT_STR_LITERAL_LEN ==> (props.last().1 matches Literal::StringShort(k) && (k as int)
                < after.short_literals.len() && after.short_literals[k as int] == value && after.literals == st.literals)
            &&& bytes.len() >= SHORT_STR_LITERAL_LEN ==> (props.last().1 matches Literal::String(span) && span.start
                == st.literals.len() && after.literals.subrange(span.start as int, span.start + span.len) == bytes)
        }),
{
    let key = subject_key(t.subject, pm);
    let value = t.object->Literal_0.value@;
    let bytes = encode_utf8(value);
    if has_key(st.nodes, key) {
        let k = key_index(st.nodes, key);
        assert(0 <= k < st.nodes.len());
    }
    if st.short_literals.contains(value) {
        let k = choose|i: int| 0 <= i < st.short_literals.len() && st.short_literals[i] == value;
    }
    let after = triple_step(st, t, filter, pm);
    let nodes1 = node_after(st.nodes, key, t.subject is BlankNode);
    let sl = node_slot(st.nodes, key);
    let lit = t.object->Literal_0;
    assert(!literal_skipped(filter, lit));
    let pkey = spec_prefixed(pm, t.predicate@);
    let st1 = IngestView { nodes: nodes1, ..st };
    let st2 = IngestView { predicates: interned_after(st1.predicates, pkey), ..st1 };
    assert(after == literal_step(st2, sl, interned_index(st1.predicates, pkey), lit, pm));
    assert(after.count == st.count + 1);
    assert(after.nodes[sl].1.properties.len() == nodes1[sl].1.properties.len() + 1);
    let props = after.nodes[sl].1.properties;
    if bytes.len() < SHORT_STR_LITERAL_LEN {
        assert(after.short_literals == interned_after(st.short_literals, value));
        assert(after.literals == st.literals);
        let k = interned_index(st.short_literals, value);
        assert(props.last().1 == Literal::StringShort(k as usize));
        assert(0 <= k < after.short_literals.len());
        assert(after.short_literals[k] == value);
    } else {
        assert(props.last().1 == Literal::String(IndexSpan { start: st.literals.len() as u32, len: bytes.len() as u32 }));
    }
    if bytes.len() >= SHORT_STR_LITERAL_LEN {
        assert(after.literals == st.literals + bytes);
        assert(after.literals.subrange(st.literals.len() as int, (st.literals.len() + bytes.len()) as int) =~= bytes);
    }
}

/// The node key of an IRI or blank node object.
pub open spec fn object_key(object: ObjectTerm, pm: Map<Seq<char>, Seq<char>>) -> Seq<char> {
    match object {
        ObjectTerm::NamedNode(o) => spec_prefixed(pm, o@),
        ObjectTerm::BlankNode(b) => b@,
        ObjectTerm::Literal(lit) => lit.value@,
    }
}

/// The nodes once the subject's and the object's nodes are held.
pub open spec fn nodes_with_ends(st: IngestView, t: TripleTerms, pm: Map<Seq<char>, Seq<char>>) -> Seq<(Seq<char>, NObjectView)> {
    let nodes1 = node_after(st.nodes, subject_key(t.subject, pm), t.subject is BlankNode);
    node_after(nodes1, object_key(t.object, pm), t.object is BlankNode)
}

/// Law: a triple whose predicate is not `rdf:type` and whose object is an
/// IRI or a blank node appends `(predicate, object)` to the subject's
/// references and `(predicate, subject)` to the object's reverse
/// references, marks the subject as a subject, counts the triple, and
/// leaves every other node as it was (nodes are first added when new).
pub proof fn lemma_reference_triple_appends(st: IngestView, t: TripleTerms, filter: Seq<Seq<char>>, pm: Map<Seq<char>, Seq<char>>)
    requires
        t.predicate@ != rdf_type_iri(),
        t.object is NamedNode || t.object is BlankNode,
    ensures
        ({
            let key = subject_key(t.subject, pm);
            let nodes1 = node_after(st.nodes, key, t.subject is BlankNode);
            let si = node_slot(st.nodes, key);
            let oi = node_slot(nodes1, object_key(t.object, pm));
            let pi = interned_index(st.predicates, spec_prefixed(pm, t.predicate@));
            let before = nodes_with_ends(st, t, pm);
            let after = triple_step(st, t, filter, pm);
            &&& 0 <= si < before.len() && 0 <= oi < before.len()
            &&& after.nodes.len() == before.len()
            &&& after.nodes[si].0 == before[si].0 && after.nodes[oi].0 == before[oi].0
            &&& after.nodes[si].1.references == before[si].1.references.push((pi as usize, oi as usize))
            &&& after.nodes[oi].1.reverse_references == before[oi].1.reverse_references.push((pi as usize, si as usize))
            &&& after.nodes[si].1.has_subject
            &&& after.count == st.count + 1
            &&& forall|i: int| 0 <= i < before.len() && i != si && i != oi ==> #[trigger] after.nodes[i] == before[i]
        }),
{
    let key = subject_key(t.subject, pm);
    let nodes1 = node_after(st.nodes, key, t.subject is BlankNode);
    let si = node_slot(st.nodes, key);
    let okey = object_key(t.object, pm);
    let oi = node_slot(nodes1, okey);
    if has_key(st.nodes, key) {
        let k = key_index(st.nodes, key);
        assert(0 <= k < st.nodes.len());
    }
    if has_key(nodes1, okey) {
        let k = key_index(nodes1, okey);
        assert(0 <= k < nodes1.len());
    }
}

/// Law: the triple count grows by one for each triple taken, and no node
/// loses its position or IRI; the subject's node is held afterwards.
pub proof fn lemma_triple_count_and_keys(st: IngestView, t: TripleTerms, filter: Seq<Seq<char>>, pm: Map<Seq<char>, Seq<char>>)
    ensures
        triple_step(st, t, filter, pm).count == st.count + (if triple_taken(t, filter) {
            1int
        } else {
            0int
        }),
        keys_kept(st.nodes, triple_step(st, t, filter, pm).nodes),
        has_key(triple_step(st, t, filter, pm).nodes, subject_key(t.subject, pm)),
{
    let key = subject_key(t.subject, pm);
    let s = node_slot(st.nodes, key);
    let nodes1 = node_after(st.nodes, key, t.subject is BlankNode);
    let st1 = IngestView { nodes: nodes1, ..st };
    assert(0 <= s < nodes1.len() && nodes1[s].0 == key);
    lemma_object_step_keeps_keys(st1, s, t.predicate@, t.object, filter, pm);
    let after = triple_step(st, t, filter, pm).nodes;
    assert(after[s].0 == key);
    assert(keys_kept(st.nodes, after)) by {
        assert forall|i: int| 0 <= i < st.nodes.len() implies (#[trigger] after[i]).0 == st.nodes[i].0 by {
            assert(nodes1[i] == st.nodes[i]);
        }
    }
}

/// What `load_from_triples` has gathered: the node so far, whether the IRI
/// was seen as a subject, and the data (only nodes, types, predicates and
/// literal cache change).
pub struct LoadView {
    pub node: NObjectView,
    pub found: bool,
    pub data: IngestView,
}

/// The text a blank node object is stored as: `_:` and its label.
pub open spec fn blank_text(label: Seq<char>) -> Seq<char> {
    "_:"@ + label
}

/// The bytes a triple's object may add to the literal cache.
pub open spec fn text_bytes(t: TripleTerms) -> nat {
    match t.object {
        ObjectTerm::Literal(lit) => encode_utf8(lit.value@).len(),
        ObjectTerm::BlankNode(b) => encode_utf8(blank_text(b@)).len(),
        ObjectTerm::NamedNode(_) => 0,
    }
}

/// The bytes the first `k` triples may add to the literal cache.
pub open spec fn text_upto(triples: Seq<TripleTerms>, k: int) -> nat
    decreases k,
{
    if k <= 0 {
        0
    } else {
        text_upto(triples, k - 1) + text_bytes(triples[k - 1])
    }
}

/// A triple about the IRI (full, not prefixed): as subject it marks the
/// IRI found and adds a type (named objects of `rdf:type`), a reference
/// (named objects, by their full IRI), or a property kept in the literal
/// cache (a literal's value, or a blank node's text); as named object with
/// a named subject it adds a reverse reference. Other triples change
/// nothing.
pub open spec fn load_step(acc: LoadView, t: TripleTerms, iri: Seq<char>) -> LoadView {
    let d = acc.data;
    let n = acc.node;
    if t.subject matches SubjectTerm::NamedNode(s) && s@ == iri {
        if t.predicate@ == rdf_type_iri() {
            match t.object {
                ObjectTerm::NamedNode(o) => {
                    let ti = interned_index(d.types, o@);
                    LoadView {
                        node: NObjectView {
                            types: if n.types.contains(ti as usize) {
                                n.types
                            } else {
                                n.types.push(ti as usize)
                            },
                            ..n
                        },
                        found: true,
                        data: IngestView { types: interned_after(d.types, o@), ..d },
                    }
                },
                _ => LoadView { found: true, ..acc },
            }
        } else {
            let p = interned_index(d.predicates, t.predicate@);
            let d1 = IngestView { predicates: interned_after(d.predicates, t.predicate@), ..d };
            let span = IndexSpan { start: d.literals.len() as u32, len: text_bytes(t) as u32 };
            match t.object {
                ObjectTerm::NamedNode(o) => LoadView {
                    node: NObjectView { references: n.references.push((p as usize, node_slot(d.nodes, o@) as usize)), ..n },
                    found: true,
                    data: IngestView { nodes: node_after(d.nodes, o@, false), ..d1 },
                },
                ObjectTerm::Literal(lit) => LoadView {
                    node: NObjectView { properties: n.properties.push((p as usize, Literal::String(span))), ..n },
                    found: true,
                    data: IngestView { literals: d.literals + encode_utf8(lit.value@), ..d1 },
                },
                ObjectTerm::BlankNode(b) => LoadView {
                    node: NObjectView { properties: n.properties.push((p as usize, Literal::String(span))), ..n },
                    found: true,
                    data: IngestView { literals: d.literals + encode_utf8(blank_text(b@)), ..d1 },
                },
            }
        }
    } else if t.object matches ObjectTerm::NamedNode(o) && o@ == iri {
        match t.subject {
            SubjectTerm::NamedNode(s) => {
                let p = interned_index(d.predicates, t.predicate@);
                LoadView {
                    node: NObjectView {
                        reverse_references: n.reverse_references.push((p as usize, node_slot(d.nodes, s@) as usize)),
                        ..n
                    },
                    found: acc.found,
                    data: IngestView {
                        predicates: interned_after(d.predicates, t.predicate@),
                        nodes: node_after(d.nodes, s@, false),
                        ..d
                    },
                }
            },
            SubjectTerm::BlankNode(_) => acc,
        }
    } else {
        acc
    }
}

/// The result of the first `k` triples.
pub open spec fn load_upto(init: LoadView, triples: Seq<TripleTerms>, iri: Seq<char>, k: int) -> LoadView
    decreases k,
{
    if k <= 0 {
        init
    } else {
        load_step(load_upto(init, triples, iri, k - 1), triples[k - 1], iri)
    }
}

/// The start: no node gathered, the IRI not found, the data as it is.
pub open spec fn load_start(data: IngestView) -> LoadView {
    LoadView { node: empty_node(false), found: false, data }
}

/// The data of a node data as the loading sees it.
pub open spec fn node_data_view(node_data: NodeData) -> IngestView {
    ingest_view(0, node_data.indexers, node_data.node_cache)
}

proof fn lemma_text_monotone(triples: Seq<TripleTerms>, i: int, j: int)
    requires
        i <= j,
    ensures
        text_upto(triples, i) <= text_upto(triples, j),
    decreases j - i,
{
    if i < j {
        lemma_text_monotone(triples, i, j - 1);
    }
}

impl RDFWrap {
    /// Gathers the node with the IRI from a list of triples (see
    /// `load_step`); `None` when no triple has it as subject. The node is
    /// not blank and marked as a subject.
    pub fn load_from_triples(triples: &Vec<TripleTerms>, iri: &str, node_data: &mut NodeData) -> (res: Option<NObject>)
        requires
            old(node_data).wf(),
            node_data_view(*old(node_data)).types.len() + triples@.len() < u32::MAX,
            node_data_view(*old(node_data)).predicates.len() + triples@.len() < u32::MAX,
            node_data_view(*old(node_data)).literals.len() + text_upto(triples@, triples@.len() as int) <= u32::MAX,
        ensures
            final(node_data).wf(),
            ({
                let after = load_upto(load_start(node_data_view(*old(node_data))), triples@, iri@, triples@.len() as int);
                &&& node_data_view(*final(node_data)) == after.data
                &&& after.found ==> res is Some && res.unwrap().view() == NObjectView { has_subject: true, ..after.node }
                &&& !after.found ==> res is None
            }),
    {
        let ghost init = load_start(node_data_view(*node_data));
        let ghost d0 = node_data_view(*node_data);
        let mut properties: Vec<(IriIndex, Literal)> = Vec::new();
        let mut references: Vec<(IriIndex, IriIndex)> = Vec::new();
        let mut types: Vec<IriIndex> = Vec::new();
        let mut reverse_references: Vec<(IriIndex, IriIndex)> = Vec::new();
        let mut found = false;
        let rdf_type = String::from_str("http://www.w3.org/1999/02/22-rdf-syntax-ns#type");
        let iri_string = iri.to_owned();
        let mut k: usize = 0;
        while k < triples.len()
            invariant
                node_data.wf(),
                iri_string@ == iri@,
                rdf_type@ == rdf_type_iri(),
                k <= triples@.len(),
                d0.types.len() + triples@.len() < u32::MAX,
                d0.predicates.len() + triples@.len() < u32::MAX,
                d0.literals.len() + text_upto(triples@, triples@.len() as int) <= u32::MAX,
                node_data_view(*node_data).types.len() <= d0.types.len() + k,
                node_data_view(*node_data).predicates.len() <= d0.predicates.len() + k,
                node_data_view(*node_data).literals.len() <= d0.literals.len() + text_upto(triples@, k as int),
                ({
                    let acc = load_upto(init, triples@, iri@, k as int);
                    &&& acc.data == node_data_view(*node_data)
                    &&& acc.found == found
                    &&& acc.node == NObjectView {
                        types: types@,
                        properties: properties@,
                        references: references@,
                        reverse_references: reverse_references@,
                        is_blank_node: false,
                        has_subject: false,
                    }
                }),
            decreases triples@.len() - k,
        {
            let triple = &triples[k];
            let ghost acc = load_upto(init, triples@, iri@, k as int);
            let ghost d = node_data_view(*node_data);
            proof {
                lemma_text_monotone(triples@, k + 1, triples@.len() as int);
                assert(*triple == triples@[k as int]);
            }
            let is_subject = match &triple.subject {
                SubjectTerm::NamedNode(s) => *s == iri_string,
                SubjectTerm::BlankNode(_) => false,
            };
            if is_subject {
                found = true;
                if triple.predicate == rdf_type {
                    match &triple.object {
                        ObjectTerm::NamedNode(named_object) => {
                            let type_index = node_data.get_type_index(named_object.as_str());
                            if !contains_index(&types, type_index) {
                                types.push(type_index);
                            }
                        },
                        _ => {},
                    }
                } else {
                    match &triple.object {
                        ObjectTerm::NamedNode(named_object) => {
                            let predicate_index = node_data.get_predicate_index(triple.predicate.as_str());
                            let reference_index = node_data.get_node_index_or_insert(named_object.as_str(), false);
                            references.push((predicate_index, reference_index));
                        },
                        ObjectTerm::Literal(literal) => {
                            let predicate_index = node_data.get_predicate_index(triple.predicate.as_str());
                            let span = node_data.indexers.literal_cache.push_str(literal.value.as_str());
                            properties.push((predicate_index, Literal::String(span)));
                        },
                        ObjectTerm::BlankNode(label) => {
                            let predicate_index = node_data.get_predicate_index(triple.predicate.as_str());
                            let mut text = String::from_str("_:");
                            text.append(label.as_str());
                            let span = node_data.indexers.literal_cache.push_str(text.as_str());
                            properties.push((predicate_index, Literal::String(span)));
                        },
                    }
                }
            } else {
                let is_object = match &triple.object {
                    ObjectTerm::NamedNode(o) => *o == iri_string,
                    _ => false,
                };
                if is_object {
                    match &triple.subject {
                        SubjectTerm::NamedNode(named_subject) => {
                            let predicate_index = node_data.get_predicate_index(triple.predicate.as_str());
                            let subject_index = node_data.get_node_index_or_insert(named_subject.as_str(), false);
                            reverse_references.push((predicate_index, subject_index));
                        },
                        SubjectTerm::BlankNode(_) => {},
                    }
                }
            }
            k += 1;
        }
        if !found {
            return None;
        }
        Some(
            NObject {
                types,
                properties,
                references,
                reverse_references,
                has_subject: true,
                is_blank_node: false,
            },
        )
    }
}

} // verus!
