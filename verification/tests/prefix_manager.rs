use rdf_glance::persistency::blocks::{read_project_blocks, write_file_header};
use rdf_glance::persistency::{HeaderType, PersistError};
use rdf_glance::prefix_manager::PrefixManager;

#[test]
fn test_prefix_manager() {
    let mut prefix_manager = PrefixManager::new();
    assert_eq!(prefix_manager.get_prefixed("http://www.w3.org/2000/01/rdf-schema#Class"), "rdfs:Class");
    assert_eq!(prefix_manager.get_prefixed("http://not_managed#Foo"), "http://not_managed#Foo");
    assert_eq!(prefix_manager.get_prefixed_opt("http://not_managed#Foo"), None);
    assert_eq!(
        prefix_manager.get_full_opt("rdfs:Class"),
        Some("http://www.w3.org/2000/01/rdf-schema#Class".into())
    );
    assert_eq!(prefix_manager.get_full_opt("unknown:Foo"), None);
    assert_eq!(prefix_manager.has_known_prefix("rdfs:Class"), true);
    assert_eq!(prefix_manager.has_known_prefix("unknown:Foo"), false);
    prefix_manager.add_prefix("atk", "http://atk.com#");
    assert_eq!(prefix_manager.get_prefixed("http://atk.com#Foo"), "atk:Foo");
    assert_eq!(prefix_manager.get_full_opt("atk:Foo"), Some("http://atk.com#Foo".into()));
    prefix_manager.clean();
    assert_eq!(prefix_manager.get_full_opt("atk:Foo"), None);
}

#[test]
fn prefixed_falls_back_to_the_enclosing_path() {
    let pm = PrefixManager::new();
    // namespace "http://dbpedia.org/resource/Rust#" is unknown, its enclosing
    // path "http://dbpedia.org/resource/" is known
    assert_eq!(pm.get_prefixed("http://dbpedia.org/resource/Rust#lang"), "dbr:Rust#lang");
    assert_eq!(pm.get_prefixed("no delimiter"), "no delimiter");
    assert_eq!(pm.get_prefixed_opt("https://schema.org/name"), Some("schema:name".to_string()));
}

#[test]
fn add_prefix_keeps_a_taken_prefix() {
    let mut pm = PrefixManager::new();
    pm.add_prefix("rdfs", "http://other.org/");
    assert_eq!(pm.get_full_opt("rdfs:x"), Some("http://www.w3.org/2000/01/rdf-schema#x".into()));
    assert_eq!(pm.get_prefixed("http://other.org/x"), "http://other.org/x");
}

#[test]
fn adding_a_base_again_replaces_its_prefix() {
    let mut pm = PrefixManager::new();
    pm.add_prefix("s", "https://schema.org/");
    assert_eq!(pm.get_prefixed("https://schema.org/name"), "s:name");
    assert_eq!(pm.get_full_opt("schema:name"), None);
}

#[test]
fn defaults_are_listed() {
    let pm = PrefixManager::new();
    let entries = pm.entries();
    assert_eq!(entries.len(), 13);
    assert!(entries.contains(&("http://www.w3.org/2002/07/owl#".to_string(), "owl".to_string())));
}

#[test]
fn prefix_table_store_restore() {
    let mut pm = PrefixManager::new();
    pm.add_prefix("atk", "http://atk.com#");
    let mut file = Vec::new();
    write_file_header(&mut file);
    assert!(pm.store(&mut file));
    let blocks = read_project_blocks(&file).unwrap();
    assert_eq!(blocks[0].header_type, HeaderType::Prefixes);
    let restored = PrefixManager::restore(&file[blocks[0].start..blocks[0].end]).unwrap();
    let mut a = pm.entries();
    let mut b = restored.entries();
    a.sort();
    b.sort();
    assert_eq!(a, b);
    assert_eq!(restored.get_full_opt("atk:Foo"), Some("http://atk.com#Foo".into()));
}

#[test]
fn prefix_table_restore_errors() {
    assert_eq!(PrefixManager::restore(&[0, 0]).err(), Some(PersistError::UnexpectedEnd));
    assert_eq!(PrefixManager::restore(&[1, 0, 0, 0, 9, 9]).err(), Some(PersistError::InvalidCompression));
}
