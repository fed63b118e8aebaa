use rdf_glance::nobject::{Literal, NObject};
use rdf_glance::persistency::project::{into_node_data, load_project, store_project, Project};
use rdf_glance::persistency::blocks::{read_project_blocks, write_block, write_file_header, BlockRef};
use rdf_glance::persistency::nodes::{
    read_index_list, read_property_list, read_reference_list, restore_nodes, store_nodes, write_index_list,
    write_property_list, write_reference_list,
};
use rdf_glance::persistency::payloads::{restore_prefixes, store_prefixes};
use rdf_glance::persistency::{
    read_field_index, read_len_string, read_varint, skip_field, write_field_index, write_len_string, write_var_field,
    write_varint, FieldType, HeaderType, PersistError, MAGIC_NUMBER,
};
use rdf_glance::string_indexer::{IndexSpan, StringCache, StringIndexer};

fn payload<'a>(data: &'a [u8], block: &BlockRef) -> &'a [u8] {
    &data[block.start..block.end]
}

#[test]
fn varint_encoding_is_leb128() {
    let mut out = Vec::new();
    write_varint(&mut out, 0);
    write_varint(&mut out, 127);
    write_varint(&mut out, 300);
    assert_eq!(out, vec![0x00, 0x7f, 0xac, 0x02]);
    assert_eq!(read_varint(&out, 0), Ok((0, 1)));
    assert_eq!(read_varint(&out, 1), Ok((127, 2)));
    assert_eq!(read_varint(&out, 2), Ok((300, 4)));
}

#[test]
fn varint_roundtrip_of_large_values() {
    for v in [u64::MAX, 1 << 63, 1 << 35, 128] {
        let mut out = vec![9u8];
        write_varint(&mut out, v);
        assert_eq!(read_varint(&out, 1), Ok((v, out.len())));
    }
}

#[test]
fn varint_cut_short_is_invalid() {
    assert_eq!(read_varint(&[0x80, 0x80], 0), Err(PersistError::InvalidVarint));
    assert_eq!(read_varint(&[], 0), Err(PersistError::InvalidVarint));
}

#[test]
fn field_index_roundtrip() {
    let mut out = Vec::new();
    write_field_index(&mut out, FieldType::FIX32, 7);
    // 7 << 3 | 3
    assert_eq!(out, vec![59]);
    assert_eq!(read_field_index(&out, 0), Ok((FieldType::FIX32, 7, 1)));
}

#[test]
fn unknown_field_type_is_refused() {
    // index 1, type code 6
    assert_eq!(read_field_index(&[14], 0), Err(PersistError::UnknownFieldType));
}

#[test]
fn len_string_roundtrip() {
    let mut out = Vec::new();
    write_len_string("héllo", &mut out);
    assert_eq!(out[0], 6);
    assert_eq!(read_len_string(&out, 0), Ok(("héllo".to_string(), 7)));
}

#[test]
fn len_string_errors() {
    assert_eq!(read_len_string(&[5, b'a'], 0), Err(PersistError::UnexpectedEnd));
    assert_eq!(read_len_string(&[2, 0xff, 0xfe], 0), Err(PersistError::InvalidUtf8));
}

#[test]
fn span_and_literal_roundtrip() {
    let span = IndexSpan { start: 300, len: 5 };
    let literals = [
        Literal::String(span),
        Literal::LangString(2, span),
        Literal::TypedString(1000, span),
        Literal::StringShort(77),
    ];
    let mut out = Vec::new();
    for l in literals.iter() {
        l.store(&mut out);
    }
    let mut pos = 0;
    for l in literals.iter() {
        let (read, next) = Literal::restore(&out, pos).unwrap();
        assert_eq!(read, *l);
        pos = next;
    }
    assert_eq!(pos, out.len());
    let mut span_bytes = Vec::new();
    span.store(&mut span_bytes);
    assert_eq!(span_bytes, vec![0xac, 0x02, 5]);
    assert_eq!(IndexSpan::restore(&span_bytes, 0), Ok((span, 3)));
}

#[test]
fn unknown_literal_type_is_reported() {
    assert_eq!(Literal::restore(&[9, 1, 1], 0), Err(PersistError::UnknownLiteralType(9)));
}

#[test]
fn lists_roundtrip() {
    let mut out = Vec::new();
    write_index_list(&mut out, &vec![3, 1, 400]);
    write_reference_list(&mut out, &vec![(1, 2), (3, 4)]);
    let props = vec![(5, Literal::StringShort(6)), (7, Literal::String(IndexSpan { start: 0, len: 2 }))];
    write_property_list(&mut out, &props);
    let (idx, p1) = read_index_list(&out, 0).unwrap();
    assert_eq!(idx, vec![3, 1, 400]);
    let (refs, p2) = read_reference_list(&out, p1).unwrap();
    assert_eq!(refs, vec![(1, 2), (3, 4)]);
    let (read_props, p3) = read_property_list(&out, p2).unwrap();
    assert_eq!(read_props, props);
    assert_eq!(p3, out.len());
}

fn sample_node() -> NObject {
    NObject {
        types: vec![1, 2],
        properties: vec![(3, Literal::LangString(1, IndexSpan { start: 4, len: 8 }))],
        references: vec![(5, 6)],
        reverse_references: vec![(7, 8), (9, 10)],
        is_blank_node: true,
        has_subject: false,
    }
}

fn same_node(a: &NObject, b: &NObject) -> bool {
    a.types == b.types
        && a.properties == b.properties
        && a.references == b.references
        && a.reverse_references == b.reverse_references
        && a.is_blank_node == b.is_blank_node
        && a.has_subject == b.has_subject
}

#[test]
fn node_roundtrip() {
    let node = sample_node();
    let mut out = Vec::new();
    node.store("http://example.org/a", &mut out);
    let (iri, read, next) = NObject::restore(&out, 0).unwrap();
    assert_eq!(iri, "http://example.org/a");
    assert!(same_node(&node, &read));
    assert_eq!(next, out.len());
}

#[test]
fn nodes_block_roundtrip() {
    let nodes = vec![("a".to_string(), sample_node()), ("b".to_string(), NObject {
        types: vec![],
        properties: vec![],
        references: vec![],
        reverse_references: vec![],
        is_blank_node: false,
        has_subject: true,
    })];
    let mut out = Vec::new();
    assert!(store_nodes(&nodes, &mut out));
    assert_eq!(out[0], 5);
    let blocks = {
        let mut file = Vec::new();
        write_file_header(&mut file);
        file.extend_from_slice(&out);
        let blocks = read_project_blocks(&file).unwrap();
        assert_eq!(blocks.len(), 1);
        assert_eq!(blocks[0].header_type, HeaderType::Nodes);
        restore_nodes(payload(&file, &blocks[0])).unwrap()
    };
    assert_eq!(blocks.len(), 2);
    assert_eq!(blocks[0].0, "a");
    assert!(same_node(&blocks[0].1, &nodes[0].1));
    assert_eq!(blocks[1].0, "b");
    assert!(same_node(&blocks[1].1, &nodes[1].1));
}

#[test]
fn file_header_and_blocks() {
    let mut file = Vec::new();
    write_file_header(&mut file);
    assert_eq!(file.len(), 10);
    assert_eq!(&file[0..4], &MAGIC_NUMBER.to_le_bytes());
    write_block(&mut file, HeaderType::Types, &[1, 2, 3]);
    write_block(&mut file, HeaderType::Prefixes, &[]);
    assert_eq!(&file[10..15], &[2, 8, 0, 0, 0]);
    let blocks = read_project_blocks(&file).unwrap();
    assert_eq!(blocks, vec![
        BlockRef { header_type: HeaderType::Types, start: 15, end: 18 },
        BlockRef { header_type: HeaderType::Prefixes, start: 23, end: 23 },
    ]);
}

#[test]
fn unknown_blocks_are_skipped() {
    let mut file = Vec::new();
    write_file_header(&mut file);
    file.extend_from_slice(&[200, 6, 0, 0, 0, 42]);
    write_block(&mut file, HeaderType::Languages, &[7]);
    let blocks = read_project_blocks(&file).unwrap();
    assert_eq!(blocks, vec![BlockRef { header_type: HeaderType::Languages, start: 21, end: 22 }]);
}

#[test]
fn project_errors() {
    assert_eq!(read_project_blocks(&[1, 2]), Err(PersistError::UnexpectedEnd));
    assert_eq!(read_project_blocks(&[0, 0, 0, 0, 0, 0, 0, 0, 10, 0]), Err(PersistError::WrongMagicNumber));
    let mut header_only = Vec::new();
    write_file_header(&mut header_only);
    assert_eq!(read_project_blocks(&header_only[0..8]), Err(PersistError::UnexpectedEnd));
    assert_eq!(read_project_blocks(&header_only), Ok(vec![]));
    let mut bad_size = header_only.clone();
    bad_size.extend_from_slice(&[1, 3, 0, 0, 0]);
    assert_eq!(read_project_blocks(&bad_size), Err(PersistError::InvalidBlockSize));
    let mut short_prelude = header_only.clone();
    short_prelude.extend_from_slice(&[1, 9]);
    assert_eq!(read_project_blocks(&short_prelude), Err(PersistError::UnexpectedEnd));
}

#[test]
fn truncated_block_payload_is_what_is_there() {
    let mut file = Vec::new();
    write_file_header(&mut file);
    file.extend_from_slice(&[1, 100, 0, 0, 0, 9, 9]);
    let blocks = read_project_blocks(&file).unwrap();
    assert_eq!(blocks, vec![BlockRef { header_type: HeaderType::Predicates, start: 15, end: 17 }]);
}

#[test]
fn indexer_store_restore() {
    let mut ix = StringIndexer::new();
    ix.get_index("rdf:type");
    ix.get_index("rdfs:label");
    ix.get_index("ünïcödé");
    let payload_bytes = ix.payload();
    assert_eq!(&payload_bytes[0..9], b"rdf:type\x1f");
    let mut file = Vec::new();
    write_file_header(&mut file);
    assert!(ix.store(HeaderType::Predicates, &mut file));
    let blocks = read_project_blocks(&file).unwrap();
    assert_eq!(blocks[0].header_type, HeaderType::Predicates);
    let block_payload = payload(&file, &blocks[0]);
    // the stored payload is compressed, not the raw strings
    assert_ne!(block_payload, payload_bytes.as_slice());
    let restored = StringIndexer::restore(block_payload).unwrap();
    assert_eq!(restored.len(), 3);
    assert_eq!(restored.index_to_str(0), Some("rdf:type"));
    assert_eq!(restored.index_to_str(1), Some("rdfs:label"));
    assert_eq!(restored.index_to_str(2), Some("ünïcödé"));
}

#[test]
fn indexer_from_payload_reads_separated_strings() {
    let ix = StringIndexer::from_payload(b"a\x1fbc\x1f").unwrap();
    assert_eq!(ix.len(), 2);
    assert_eq!(ix.index_to_str(1), Some("bc"));
    assert_eq!(StringIndexer::from_payload(&[0xc3, 0x28, 0x1f]).err(), Some(PersistError::InvalidUtf8));
}

#[test]
fn corrupt_compressed_payload_is_refused() {
    assert_eq!(StringIndexer::restore(&[1, 2, 3, 4]).err(), Some(PersistError::InvalidCompression));
    assert_eq!(StringCache::restore(&[1, 2, 3, 4]).err(), Some(PersistError::InvalidCompression));
}

#[test]
fn literal_cache_store_restore() {
    let mut cache = StringCache::new();
    let span = cache.push_str("Rust");
    cache.push_str(" – a language");
    let mut file = Vec::new();
    write_file_header(&mut file);
    assert!(cache.store(&mut file));
    let blocks = read_project_blocks(&file).unwrap();
    assert_eq!(blocks[0].header_type, HeaderType::Literals);
    let restored = StringCache::restore(payload(&file, &blocks[0])).unwrap();
    assert_eq!(restored.cache, cache.cache);
    assert_eq!(restored.get_str(span), "Rust");
}

#[test]
fn prefixes_store_restore() {
    let pairs = vec![
        ("rdfs".to_string(), "http://www.w3.org/2000/01/rdf-schema#".to_string()),
        ("atk".to_string(), "http://atk.com#".to_string()),
    ];
    let mut file = Vec::new();
    write_file_header(&mut file);
    assert!(store_prefixes(&pairs, &mut file));
    let blocks = read_project_blocks(&file).unwrap();
    assert_eq!(blocks[0].header_type, HeaderType::Prefixes);
    let block_payload = payload(&file, &blocks[0]);
    assert_eq!(&block_payload[0..4], &[2, 0, 0, 0]);
    assert_eq!(restore_prefixes(block_payload).unwrap(), pairs);
    assert_eq!(restore_prefixes(&[1, 0]).err(), Some(PersistError::UnexpectedEnd));
}

#[test]
fn header_and_field_codes() {
    for code in 1u8..=10 {
        assert_eq!(HeaderType::from_u8(code).unwrap().code(), code);
    }
    assert_eq!(HeaderType::from_u8(0), None);
    assert_eq!(HeaderType::from_u8(11), None);
    for code in 1u8..=5 {
        assert_eq!(FieldType::from_idx(code).unwrap().code(), code);
    }
    assert_eq!(FieldType::from_idx(6), Err(PersistError::UnknownFieldType));
}

#[test]
fn a_var_field_is_skipped_whole() {
    let mut out = Vec::new();
    write_var_field(&mut out, 1, &[9, 8, 7]);
    out.push(42);
    let (field_type, index, next) = read_field_index(&out, 0).unwrap();
    assert_eq!(field_type, FieldType::LENGTHDELIMITED);
    assert_eq!(index, 1);
    let after = skip_field(&out, next, field_type).unwrap();
    assert_eq!(out[after], 42);
}

#[test]
fn skipping_fields_of_each_type() {
    let data = [0x96, 0x01, 1, 2, 3, 4, 5, 6, 7, 8, 9];
    assert_eq!(skip_field(&data, 0, FieldType::VARINT).unwrap(), 2);
    assert_eq!(skip_field(&data, 2, FieldType::FIX64).unwrap(), 10);
    assert_eq!(skip_field(&data, 2, FieldType::FIX32).unwrap(), 6);
    assert_eq!(skip_field(&data, 2, FieldType::FLAG).unwrap(), 2);
    // fixed fields that run past the end stop at the end
    assert_eq!(skip_field(&data, 8, FieldType::FIX64).unwrap(), 11);
    // a length of 5 with only 2 bytes left
    assert_eq!(skip_field(&[5, 1, 2], 0, FieldType::LENGTHDELIMITED), Err(PersistError::UnexpectedEnd));
    assert_eq!(skip_field(&[0x80], 0, FieldType::VARINT), Err(PersistError::InvalidVarint));
}

#[test]
fn a_stored_project_reads_back() {
    let mut project = Project::empty();
    project.predicates.get_index("ex:name");
    project.types.get_index("ex:Person");
    project.languages.get_index("en");
    project.datatypes.get_index("xsd:int");
    project.short_literals.get_index("Ann");
    let span = project.literals.push_str("a longer literal text");
    project.prefixes.add_prefix("ex", "http://example.org/");
    let node = NObject {
        types: vec![0],
        properties: vec![(0, Literal::String(span))],
        references: vec![(0, 1)],
        reverse_references: vec![],
        is_blank_node: false,
        has_subject: true,
    };
    let other = NObject {
        types: vec![],
        properties: vec![],
        references: vec![],
        reverse_references: vec![(0, 0)],
        is_blank_node: true,
        has_subject: false,
    };
    project.nodes.push(("ex:a".to_string(), node));
    project.nodes.push(("_:b".to_string(), other));
    let bytes = store_project(&project).unwrap();
    let loaded = load_project(&bytes).unwrap();
    assert_eq!(loaded.predicates.index_to_str(0), Some("ex:name"));
    assert_eq!(loaded.types.index_to_str(0), Some("ex:Person"));
    assert_eq!(loaded.languages.index_to_str(0), Some("en"));
    assert_eq!(loaded.datatypes.index_to_str(0), Some("xsd:int"));
    assert_eq!(loaded.short_literals.index_to_str(0), Some("Ann"));
    assert_eq!(loaded.literals.get_str(span), "a longer literal text");
    assert_eq!(loaded.prefixes.get_prefixed("http://example.org/x"), "ex:x");
    assert_eq!(loaded.nodes.len(), 2);
    assert_eq!(loaded.nodes[0].0, "ex:a");
    assert_eq!(loaded.nodes[0].1.references, vec![(0, 1)]);
    assert_eq!(loaded.nodes[1].1.reverse_references, vec![(0, 0)]);
    let (data, _prefixes) = into_node_data(loaded);
    assert_eq!(data.len(), 2);
    assert!(load_project(&bytes[..3]).is_err());
}
