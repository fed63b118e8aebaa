use rdf_glance::rdfwrap::{rdf_format_for_extension, RdfFormat};
use rdf_glance::nobject::{Indexers, NObject, NodeCache, NodeData};
use rdf_glance::prefix_manager::PrefixManager;
use rdf_glance::rdfwrap::{add_triple, IndexCache, LiteralTerm, ObjectTerm, RDFWrap, SubjectTerm, TripleTerms};

fn empty_object() -> NObject {
    NObject {
        types: vec![],
        properties: vec![],
        references: vec![],
        reverse_references: vec![],
        is_blank_node: false,
        has_subject: true,
    }
}

#[test]
fn node_indexes_follow_insertion_order() {
    let mut cache = NodeCache::new();
    assert_eq!(cache.get_node_index_or_insert("http://example.org/a", false), 0);
    assert_eq!(cache.get_node_index_or_insert("b1", true), 1);
    assert_eq!(cache.get_node_index_or_insert("http://example.org/a", false), 0);
    assert_eq!(cache.len(), 2);
    assert_eq!(cache.get_node_index("b1"), Some(1));
    assert_eq!(cache.get_node_index("missing"), None);
    assert!(cache.get_node("missing").is_none());
    let blank = cache.get_node_by_index(1).unwrap();
    assert!(blank.is_blank_node);
    assert!(!blank.has_subject);
    assert!(cache.get_node_by_index(2).is_none());
}

#[test]
fn put_node_appends_and_replace_keeps_the_index() {
    let mut cache = NodeCache::new();
    cache.get_node_index_or_insert("x", false);
    let index = cache.put_node("y".to_string(), empty_object());
    assert_eq!(index, 1);
    assert!(cache.get_node("y").unwrap().has_subject);
    let mut replacement = empty_object();
    replacement.types.push(7);
    cache.put_node_replace("y".to_string(), replacement);
    assert_eq!(cache.get_node_index("y"), Some(1));
    assert_eq!(cache.get_node_by_index(1).unwrap().types, vec![7]);
    cache.get_node_by_index_mut(0).types.push(3);
    assert_eq!(cache.get_node("x").unwrap().types, vec![3]);
    cache.clean();
    assert_eq!(cache.len(), 0);
}

#[test]
fn indexers_number_each_string_once() {
    let mut indexers = Indexers::new();
    assert_eq!(indexers.get_type_index("foaf:Person"), 0);
    assert_eq!(indexers.get_type_index("foaf:Agent"), 1);
    assert_eq!(indexers.get_type_index("foaf:Person"), 0);
    assert_eq!(indexers.get_predicate_index("foaf:name"), 0);
    assert_eq!(indexers.get_language_index("en"), 0);
    assert_eq!(indexers.get_data_type_index("xsd:int"), 0);
    assert_eq!(indexers.type_indexer.len(), 2);
}

struct Loader {
    count: u32,
    indexers: Indexers,
    cache: NodeCache,
    index_cache: IndexCache,
    prefixes: PrefixManager,
}

impl Loader {
    fn new() -> Self {
        Loader {
            count: 0,
            indexers: Indexers::new(),
            cache: NodeCache::new(),
            index_cache: IndexCache { index: 0, iri: String::new() },
            prefixes: PrefixManager::new(),
        }
    }

    fn add(&mut self, triple: TripleTerms, filter: &[String]) {
        add_triple(
            &mut self.count,
            &mut self.indexers,
            &mut self.cache,
            triple,
            &mut self.index_cache,
            filter,
            &self.prefixes,
        );
    }
}

fn named(s: &str) -> SubjectTerm {
    SubjectTerm::NamedNode(s.to_string())
}

fn triple(subject: SubjectTerm, predicate: &str, object: ObjectTerm) -> TripleTerms {
    TripleTerms { subject, predicate: predicate.to_string(), object }
}

fn literal(value: &str, language: Option<&str>, datatype: &str) -> ObjectTerm {
    ObjectTerm::Literal(LiteralTerm {
        value: value.to_string(),
        language: language.map(|l| l.to_string()),
        datatype: datatype.to_string(),
    })
}

const RDF_TYPE: &str = "http://www.w3.org/1999/02/22-rdf-syntax-ns#type";
const XSD_STRING: &str = "http://www.w3.org/2001/XMLSchema#string";

#[test]
fn a_type_triple_adds_the_prefixed_type_once() {
    let mut loader = Loader::new();
    let person = ObjectTerm::NamedNode("http://xmlns.com/foaf/0.1/Person".to_string());
    loader.add(triple(named("http://example.org/a"), RDF_TYPE, person), &[]);
    let person = ObjectTerm::NamedNode("http://xmlns.com/foaf/0.1/Person".to_string());
    loader.add(triple(named("http://example.org/a"), RDF_TYPE, person), &[]);
    assert_eq!(loader.count, 2);
    assert_eq!(loader.cache.len(), 1);
    let node = loader.cache.get_node("http://example.org/a").unwrap();
    assert_eq!(node.types, vec![0]);
    assert!(node.has_subject);
    assert_eq!(loader.indexers.type_indexer.index_to_str(0), Some("foaf:Person"));
    assert_eq!(loader.index_cache.iri, "http://example.org/a");
    assert_eq!(loader.index_cache.index, 0);
}

#[test]
fn a_type_by_a_blank_node_is_not_taken() {
    let mut loader = Loader::new();
    loader.add(triple(named("http://example.org/a"), RDF_TYPE, ObjectTerm::BlankNode("t".to_string())), &[]);
    assert_eq!(loader.count, 0);
    // the subject's node exists, but is not marked as a subject
    let node = loader.cache.get_node("http://example.org/a").unwrap();
    assert!(!node.has_subject);
    assert!(node.types.is_empty());
}

#[test]
fn a_reference_is_mirrored_by_a_reverse_reference() {
    let mut loader = Loader::new();
    let knows = "http://xmlns.com/foaf/0.1/knows";
    loader.add(
        triple(named("http://example.org/a"), knows, ObjectTerm::NamedNode("http://example.org/b".to_string())),
        &[],
    );
    loader.add(triple(SubjectTerm::BlankNode("n1".to_string()), knows, ObjectTerm::BlankNode("n2".to_string())), &[]);
    assert_eq!(loader.count, 2);
    assert_eq!(loader.cache.len(), 4);
    let a = loader.cache.get_node("http://example.org/a").unwrap();
    assert_eq!(a.references, vec![(0, 1)]);
    assert!(a.has_subject);
    let b = loader.cache.get_node("http://example.org/b").unwrap();
    assert_eq!(b.reverse_references, vec![(0, 0)]);
    assert!(!b.has_subject);
    let n2 = loader.cache.get_node("n2").unwrap();
    assert!(n2.is_blank_node);
    assert_eq!(n2.reverse_references, vec![(0, 2)]);
    assert_eq!(loader.indexers.predicate_indexer.index_to_str(0), Some("foaf:knows"));
}

#[test]
fn a_self_reference_has_both_directions_on_one_node() {
    let mut loader = Loader::new();
    loader.add(
        triple(named("http://example.org/a"), "http://example.org/p", ObjectTerm::NamedNode("http://example.org/a".to_string())),
        &[],
    );
    let a = loader.cache.get_node_by_index(0).unwrap();
    assert_eq!(a.references, vec![(0, 0)]);
    assert_eq!(a.reverse_references, vec![(0, 0)]);
    assert_eq!(loader.cache.len(), 1);
}

#[test]
fn short_and_long_strings_go_to_their_tables() {
    let mut loader = Loader::new();
    let name = "http://xmlns.com/foaf/0.1/name";
    loader.add(triple(named("http://example.org/a"), name, literal("Alice", None, XSD_STRING)), &[]);
    let long = "a description that is longer than thirty-two bytes";
    loader.add(triple(named("http://example.org/a"), name, literal(long, None, XSD_STRING)), &[]);
    assert_eq!(loader.count, 2);
    let a = loader.cache.get_node_by_index(0).unwrap();
    assert_eq!(a.properties.len(), 2);
    assert_eq!(format!("{:?}", a.properties[0].1), "StringShort(0)");
    assert_eq!(loader.indexers.short_literal_indexer.index_to_str(0), Some("Alice"));
    match a.properties[1].1 {
        rdf_glance::nobject::Literal::String(span) => {
            assert_eq!(span.start, 0);
            assert_eq!(span.len as usize, long.len());
            assert_eq!(loader.indexers.literal_cache.get_str(span), long);
        },
        _ => panic!("expected a cached string"),
    }
}

#[test]
fn language_strings_outside_the_filter_are_skipped() {
    let mut loader = Loader::new();
    let label = "http://www.w3.org/2000/01/rdf-schema#label";
    let filter = vec!["en".to_string()];
    loader.add(triple(named("http://example.org/a"), label, literal("Hallo", Some("de"), XSD_STRING)), &filter);
    loader.add(triple(named("http://example.org/a"), label, literal("Hello", Some("en"), XSD_STRING)), &filter);
    assert_eq!(loader.count, 1);
    let a = loader.cache.get_node_by_index(0).unwrap();
    assert_eq!(a.properties.len(), 1);
    match a.properties[0].1 {
        rdf_glance::nobject::Literal::LangString(language, span) => {
            assert_eq!(loader.indexers.language_indexer.index_to_str(language), Some("en"));
            assert_eq!(loader.indexers.literal_cache.get_str(span), "Hello");
        },
        _ => panic!("expected a language string"),
    }
    // the predicate was interned even for the skipped literal
    assert_eq!(loader.indexers.predicate_indexer.index_to_str(0), Some("rdfs:label"));
}

#[test]
fn typed_literals_keep_their_prefixed_datatype() {
    let mut loader = Loader::new();
    let age = "http://xmlns.com/foaf/0.1/age";
    loader.add(
        triple(named("http://example.org/a"), age, literal("42", None, "http://www.w3.org/2001/XMLSchema#integer")),
        &[],
    );
    let a = loader.cache.get_node_by_index(0).unwrap();
    match a.properties[0].1 {
        rdf_glance::nobject::Literal::TypedString(datatype, span) => {
            assert_eq!(loader.indexers.datatype_indexer.index_to_str(datatype), Some("xsd:integer"));
            assert_eq!(loader.indexers.literal_cache.get_str(span), "42");
        },
        _ => panic!("expected a typed string"),
    }
}

#[test]
fn the_index_cache_follows_the_last_subject() {
    let mut loader = Loader::new();
    let p = "http://example.org/p";
    loader.add(triple(named("http://example.org/a"), p, literal("1", None, XSD_STRING)), &[]);
    loader.add(triple(named("http://example.org/b"), p, literal("2", None, XSD_STRING)), &[]);
    loader.add(triple(named("http://example.org/b"), p, literal("3", None, XSD_STRING)), &[]);
    assert_eq!(loader.index_cache.index, 1);
    assert_eq!(loader.index_cache.iri, "http://example.org/b");
    assert_eq!(loader.cache.get_node_by_index(1).unwrap().properties.len(), 2);
}

#[test]
fn load_from_triples_gathers_one_node() {
    let a = "http://example.org/a";
    let knows = "http://xmlns.com/foaf/0.1/knows";
    let triples = vec![
        triple(named(a), RDF_TYPE, ObjectTerm::NamedNode("http://xmlns.com/foaf/0.1/Person".to_string())),
        triple(named(a), knows, ObjectTerm::NamedNode("http://example.org/b".to_string())),
        triple(named(a), "http://xmlns.com/foaf/0.1/name", literal("Alice", None, XSD_STRING)),
        triple(named(a), "http://example.org/p", ObjectTerm::BlankNode("x1".to_string())),
        triple(named("http://example.org/c"), knows, ObjectTerm::NamedNode(a.to_string())),
        triple(named("http://example.org/c"), knows, ObjectTerm::NamedNode("http://example.org/d".to_string())),
    ];
    let mut data = NodeData::new();
    let node = RDFWrap::load_from_triples(&triples, a, &mut data).unwrap();
    assert!(node.has_subject);
    assert!(!node.is_blank_node);
    assert_eq!(node.types, vec![0]);
    // the full IRI is the type's name here
    assert_eq!(data.get_type(0), Some("http://xmlns.com/foaf/0.1/Person"));
    assert_eq!(node.references, vec![(0, 0)]);
    assert_eq!(data.get_node_index("http://example.org/b"), Some(0));
    assert_eq!(node.reverse_references, vec![(0, 1)]);
    assert_eq!(data.get_node_index("http://example.org/c"), Some(1));
    assert_eq!(data.get_node_index("http://example.org/d"), None);
    assert_eq!(node.properties.len(), 2);
    match (node.properties[0].1, node.properties[1].1) {
        (rdf_glance::nobject::Literal::String(name), rdf_glance::nobject::Literal::String(blank)) => {
            assert_eq!(data.indexers.literal_cache.get_str(name), "Alice");
            assert_eq!(data.indexers.literal_cache.get_str(blank), "_:x1");
        },
        _ => panic!("expected cached strings"),
    }
    assert_eq!(data.get_predicate(1), Some("http://xmlns.com/foaf/0.1/name"));
}

#[test]
fn load_from_triples_without_the_subject_gives_none() {
    let a = "http://example.org/a";
    let triples = vec![triple(named("http://example.org/c"), "http://example.org/p", ObjectTerm::NamedNode(a.to_string()))];
    let mut data = NodeData::new();
    assert!(RDFWrap::load_from_triples(&triples, a, &mut data).is_none());
    // the reverse reference still interned the subject and predicate
    assert_eq!(data.len(), 1);
    assert_eq!(data.unique_predicates(), 1);
}

#[test]
fn rdf_format_follows_the_file_extension() {
    assert_eq!(rdf_format_for_extension("ttl"), Some(RdfFormat::Turtle));
    assert_eq!(rdf_format_for_extension("rdf"), Some(RdfFormat::RdfXml));
    assert_eq!(rdf_format_for_extension("xml"), Some(RdfFormat::RdfXml));
    assert_eq!(rdf_format_for_extension("nt"), Some(RdfFormat::NTriples));
    assert_eq!(rdf_format_for_extension("trig"), Some(RdfFormat::TriG));
    assert_eq!(rdf_format_for_extension("nq"), Some(RdfFormat::NQuads));
    assert_eq!(rdf_format_for_extension("csv"), None);
    assert_eq!(rdf_format_for_extension(""), None);
    assert_eq!(rdf_format_for_extension("TTL"), None);
}
