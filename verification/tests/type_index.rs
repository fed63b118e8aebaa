use rdf_glance::nobject::{Literal, NObject, NodeData};
use rdf_glance::string_indexer::IndexSpan;
use rdf_glance::layoutalg::{run_layout_algorithm, LayoutAlgorithm, LayoutOrientation, LayoutStep};
use rdf_glance::meta_graph::{build_meta_graph, create_types_layout_edges, TypeEdge};
use rdf_glance::table_view::{DataPropCharacteristics, TypeCountColumn, TypeInstanceIndex};

fn node(types: Vec<usize>, references: usize, properties: usize, has_subject: bool, is_blank_node: bool) -> NObject {
    NObject {
        types,
        properties: (0..properties).map(|i| (i, Literal::StringShort(0))).collect(),
        references: (0..references).map(|i| (i, 0)).collect(),
        reverse_references: vec![],
        is_blank_node,
        has_subject,
    }
}

fn sample() -> NodeData {
    let mut data = NodeData::new();
    data.get_type_index("ex:Person");
    data.get_type_index("ex:City");
    data.get_predicate_index("ex:name");
    // node 0: a person with two references and one property
    data.put_node("a".to_string(), node(vec![0], 2, 1, true, false));
    // node 1: a city
    data.put_node("b".to_string(), node(vec![1], 0, 2, true, false));
    // node 2: another person, a blank node
    data.put_node("c".to_string(), node(vec![0], 1, 0, true, true));
    // node 3: only referenced
    data.put_node("d".to_string(), node(vec![], 0, 0, false, false));
    data
}

#[test]
fn counts_cover_all_nodes() {
    let data = sample();
    let mut index = TypeInstanceIndex::new();
    index.update(&data);
    assert_eq!(index.nodes, 3);
    assert_eq!(index.unresolved_references, 1);
    assert_eq!(index.blank_nodes, 1);
    assert_eq!(index.references, 3);
    assert_eq!(index.properties, 3);
    assert_eq!(index.unique_types, 2);
    assert_eq!(index.unique_predicates, 1);
}

#[test]
fn types_list_their_instances() {
    let data = sample();
    let mut index = TypeInstanceIndex::new();
    index.update(&data);
    assert_eq!(index.types.len(), 2);
    assert_eq!(index.types[0].type_index, 0);
    assert_eq!(index.types[0].instances, vec![0, 2]);
    assert_eq!(index.types[0].filtered_instances, vec![0, 2]);
    assert_eq!(index.types[1].type_index, 1);
    assert_eq!(index.types[1].instances, vec![1]);
}

#[test]
fn types_are_ordered_by_instance_count() {
    let data = sample();
    let mut index = TypeInstanceIndex::new();
    index.update(&data);
    assert_eq!(index.types_order, vec![0, 1]);
    assert_eq!(index.types_filtered, vec![0, 1]);
    assert_eq!(index.selected_type, Some(0));
    assert_eq!(index.max_instance_type_count, 2);
    assert_eq!(index.min_instance_type_count, 1);
    assert!(index.types_filter.is_empty());
}

#[test]
fn a_larger_type_seen_later_comes_first() {
    let mut data = NodeData::new();
    data.put_node("a".to_string(), node(vec![5], 0, 0, true, false));
    data.put_node("b".to_string(), node(vec![7, 5], 0, 0, true, false));
    data.put_node("c".to_string(), node(vec![7], 0, 0, true, false));
    data.put_node("d".to_string(), node(vec![7], 0, 0, true, false));
    let mut index = TypeInstanceIndex::new();
    index.update(&data);
    assert_eq!(index.types_order, vec![7, 5]);
    assert_eq!(index.types[0].type_index, 5);
    assert_eq!(index.types[1].instances, vec![1, 2, 3]);
    assert_eq!(index.max_instance_type_count, 3);
    assert_eq!(index.min_instance_type_count, 2);
}

#[test]
fn no_types_select_nothing() {
    let mut data = NodeData::new();
    data.put_node("a".to_string(), node(vec![], 0, 0, true, false));
    let mut index = TypeInstanceIndex::new();
    index.selected_type = Some(3);
    index.update(&data);
    assert!(index.types.is_empty());
    assert!(index.types_order.is_empty());
    assert_eq!(index.selected_type, None);
    assert_eq!(index.min_instance_type_count, 0);
    assert_eq!(index.max_instance_type_count, 0);
}

#[test]
fn clean_forgets_the_counts() {
    let data = sample();
    let mut index = TypeInstanceIndex::new();
    index.update(&data);
    index.clean();
    assert_eq!(index.nodes, 0);
    assert!(index.types.is_empty());
    assert!(index.types_order.is_empty());
    // the selection stays until the next update
    assert_eq!(index.selected_type, Some(0));
}

#[test]
fn reverse_references_are_counted_by_predicate() {
    let mut data = NodeData::new();
    let mut a = node(vec![0], 0, 0, true, false);
    a.reverse_references = vec![(4, 1), (5, 1), (4, 2)];
    let mut b = node(vec![0, 1], 0, 0, true, false);
    b.reverse_references = vec![(5, 0)];
    data.put_node("a".to_string(), a);
    data.put_node("b".to_string(), b);
    let mut index = TypeInstanceIndex::new();
    index.update(&data);
    let type0 = &index.types[0];
    let mut counts = type0.rev_references.clone();
    counts.sort();
    assert_eq!(counts, vec![(4, 2), (5, 2)]);
    assert_eq!(index.types[1].rev_references, vec![(5, 1)]);
}

#[test]
fn count_rev_reference_adds_to_the_entry() {
    let mut type_data = rdf_glance::table_view::TypeData::new(3);
    type_data.count_rev_reference(7, 1);
    type_data.count_rev_reference(8, 2);
    type_data.count_rev_reference(7, 5);
    assert_eq!(type_data.rev_references, vec![(7, 6), (8, 2)]);
}

#[test]
fn property_statistics_follow_the_instances() {
    let mut data = NodeData::new();
    assert_eq!(data.indexers.short_literal_indexer.get_index("Alice"), 0);
    assert_eq!(data.indexers.short_literal_indexer.get_index("Bob"), 1);
    let mut a = node(vec![0], 0, 0, true, false);
    a.properties = vec![(0, Literal::StringShort(0)), (1, Literal::String(IndexSpan { start: 0, len: 10 }))];
    let mut b = node(vec![1], 0, 0, true, false);
    b.properties = vec![(1, Literal::String(IndexSpan { start: 10, len: 4 }))];
    let mut c = node(vec![0], 0, 0, true, false);
    c.properties = vec![(0, Literal::StringShort(1)), (0, Literal::StringShort(0))];
    data.put_node("a".to_string(), a);
    data.put_node("b".to_string(), b);
    data.put_node("c".to_string(), c);
    let mut index = TypeInstanceIndex::new();
    index.update(&data);
    let mut props = index.types[0].properties.clone();
    props.sort_by_key(|e| e.0);
    assert_eq!(
        props,
        vec![
            (0, DataPropCharacteristics { count: 3, max_len: 5, max_cardinality: 2, min_cardinality: 1 }),
            // the second instance has no value of predicate 1
            (1, DataPropCharacteristics { count: 1, max_len: 10, max_cardinality: 1, min_cardinality: 0 }),
        ]
    );
    assert_eq!(
        index.types[1].properties,
        vec![(1, DataPropCharacteristics { count: 1, max_len: 4, max_cardinality: 1, min_cardinality: 1 })]
    );
}

#[test]
fn reference_statistics_gather_the_referenced_types() {
    let mut data = NodeData::new();
    let mut a = node(vec![0], 0, 0, true, false);
    // node 5 does not exist: that reference is not counted
    a.references = vec![(7, 1), (7, 2), (8, 5)];
    let b = node(vec![1], 0, 0, true, false);
    let c = node(vec![2, 1], 0, 0, true, false);
    let mut d = node(vec![0], 0, 0, true, false);
    d.references = vec![(8, 1)];
    data.put_node("a".to_string(), a);
    data.put_node("b".to_string(), b);
    data.put_node("c".to_string(), c);
    data.put_node("d".to_string(), d);
    let mut index = TypeInstanceIndex::new();
    index.update(&data);
    let type0 = &index.types[0];
    assert_eq!(type0.type_index, 0);
    assert_eq!(type0.references.len(), 2);
    let r7 = &type0.references.iter().find(|e| e.0 == 7).unwrap().1;
    assert_eq!((r7.count, r7.max_cardinality, r7.min_cardinality), (2, 2, 0));
    assert_eq!(r7.types, vec![1, 2]);
    let r8 = &type0.references.iter().find(|e| e.0 == 8).unwrap().1;
    assert_eq!((r8.count, r8.max_cardinality, r8.min_cardinality), (1, 1, 1));
    assert_eq!(r8.types, vec![1]);
}

#[test]
fn the_type_graph_links_referencing_types() {
    let mut data = NodeData::new();
    let mut a = node(vec![0], 0, 0, true, false);
    a.references = vec![(7, 1), (7, 2), (9, 0)];
    let b = node(vec![1], 0, 0, true, false);
    let c = node(vec![2, 1], 0, 0, true, false);
    let mut d = node(vec![0], 0, 0, true, false);
    d.references = vec![(8, 1)];
    data.put_node("a".to_string(), a);
    data.put_node("b".to_string(), b);
    data.put_node("c".to_string(), c);
    data.put_node("d".to_string(), d);
    let mut index = TypeInstanceIndex::new();
    index.update(&data);
    let graph = build_meta_graph(&index);
    assert_eq!(graph.nodes, vec![0, 1, 2]);
    assert_eq!(
        graph.edges,
        vec![
            TypeEdge { from: 0, to: 1, predicate: 7 },
            TypeEdge { from: 0, to: 2, predicate: 7 },
            // type 0 references its own instances
            TypeEdge { from: 0, to: 0, predicate: 9 },
            TypeEdge { from: 0, to: 1, predicate: 8 },
        ]
    );
    // a layout without type 2 has no edge to it
    let edges = create_types_layout_edges(&vec![1, 0], &index);
    assert_eq!(
        edges,
        vec![
            TypeEdge { from: 1, to: 0, predicate: 7 },
            TypeEdge { from: 1, to: 1, predicate: 9 },
            TypeEdge { from: 1, to: 0, predicate: 8 },
        ]
    );
}

#[test]
fn every_layout_but_the_orthogonal_drops_the_routes() {
    let plan = run_layout_algorithm(LayoutAlgorithm::HierarchicalVertical);
    assert_eq!(plan.step, LayoutStep::Hierarchical(LayoutOrientation::Vertical));
    assert!(plan.drop_orthogonal);
    let plan = run_layout_algorithm(LayoutAlgorithm::LinearHorizontal);
    assert_eq!(plan.step, LayoutStep::Linear(LayoutOrientation::Horizontal));
    let plan = run_layout_algorithm(LayoutAlgorithm::Orthogonal);
    assert_eq!(plan.step, LayoutStep::Orthogonal);
    assert!(!plan.drop_orthogonal);
}

#[test]
fn type_rows_sort_by_a_count_column() {
    let data = sample();
    let mut index = TypeInstanceIndex::new();
    index.update(&data);
    assert_eq!(index.types_filtered, vec![0, 1]);
    index.sort_types_by_count(TypeCountColumn::DataProps);
    assert_eq!(index.types_filtered, vec![1, 0]);
    index.sort_types_by_count(TypeCountColumn::Instances);
    assert_eq!(index.types_filtered, vec![0, 1]);
    assert_eq!(index.types_order, vec![0, 1]);
}
