use bayesian_visualizer::graph_ir::{DataColumn, GraphIR, NodeIR, Operation, ParamIR, PlateIR};
use bayesian_visualizer::plate_errors::PlateError;
use bayesian_visualizer::plate_validation::ensure_unique;
use std::collections::HashMap;

fn scalar(id: u32) -> NodeIR {
    NodeIR::Scalar { id, value: 1.0f64.to_bits() }
}

fn compute(id: u32, from_node: u32) -> NodeIR {
    NodeIR::Compute {
        id,
        operation: Operation::Exponential,
        params: vec![ParamIR { from_node, param_name: None }],
    }
}

fn plate(id: u32, n: usize, nodes: Vec<u32>, plates: Vec<u32>) -> PlateIR {
    PlateIR {
        id,
        n,
        nodes,
        plates,
        data: vec![DataColumn { name: "value".to_string(), values: vec![0.0f64.to_bits(); n] }],
        mapping: HashMap::new(),
    }
}

#[test]
fn normalizes_arbitrarily_nested_plates_and_root_nodes() {
    let mut graph = GraphIR::new();
    graph.nodes.insert(1, scalar(1));
    graph.nodes.insert(2, scalar(2));
    graph.nodes.insert(3, scalar(3));
    graph.plates.insert(10, plate(10, 0, vec![2], vec![11]));
    graph.plates.insert(11, plate(11, 7, vec![3], vec![]));

    let normalized = graph.normalize_plates().unwrap();

    assert_eq!(normalized.root.nodes, vec![1]);
    assert_eq!(normalized.root.children[0].plate.unwrap().id, 10);
    assert_eq!(normalized.root.children[0].plate.unwrap().n, 0);
    assert_eq!(normalized.root.children[0].children[0].plate.unwrap().id, 11);
    assert_eq!(normalized.node_paths[&1], Vec::<u32>::new());
    assert_eq!(normalized.node_paths[&2], vec![10]);
    assert_eq!(normalized.node_paths[&3], vec![10, 11]);
}

#[test]
fn rejects_missing_and_multiply_owned_contents() {
    let mut missing = GraphIR::new();
    missing.plates.insert(10, plate(10, 1, vec![99], vec![]));
    assert!(missing.validate_plate_semantics().is_err());

    let mut duplicate_node = GraphIR::new();
    duplicate_node.nodes.insert(1, scalar(1));
    duplicate_node.plates.insert(10, plate(10, 1, vec![1], vec![]));
    duplicate_node.plates.insert(11, plate(11, 1, vec![1], vec![]));
    assert!(duplicate_node.validate_plate_semantics().is_err());

    let mut duplicate_parent = GraphIR::new();
    duplicate_parent.plates.insert(10, plate(10, 1, vec![], vec![12]));
    duplicate_parent.plates.insert(11, plate(11, 1, vec![], vec![12]));
    duplicate_parent.plates.insert(12, plate(12, 1, vec![], vec![]));
    assert!(duplicate_parent.validate_plate_semantics().is_err());
}

#[test]
fn rejects_plate_cycles() {
    let mut graph = GraphIR::new();
    graph.plates.insert(10, plate(10, 1, vec![], vec![11]));
    graph.plates.insert(11, plate(11, 1, vec![], vec![10]));

    assert!(graph.validate_plate_semantics().is_err());
}

#[test]
fn allows_dependencies_into_same_or_nested_scope() {
    let mut graph = GraphIR::new();
    graph.nodes.insert(1, scalar(1));
    graph.nodes.insert(2, compute(2, 1));
    graph.nodes.insert(3, compute(3, 2));
    graph.nodes.insert(4, compute(4, 3));
    graph.plates.insert(10, plate(10, 3, vec![2, 3], vec![11]));
    graph.plates.insert(11, plate(11, 4, vec![4], vec![]));

    assert_eq!(graph.validate_plate_semantics(), Ok(()));
}

#[test]
fn rejects_dependencies_out_of_or_across_plates() {
    let mut outward = GraphIR::new();
    outward.nodes.insert(1, scalar(1));
    outward.nodes.insert(2, compute(2, 1));
    outward.plates.insert(10, plate(10, 3, vec![1], vec![]));
    assert!(outward.validate_plate_semantics().is_err());

    let mut sibling = GraphIR::new();
    sibling.nodes.insert(1, scalar(1));
    sibling.nodes.insert(2, compute(2, 1));
    sibling.plates.insert(10, plate(10, 3, vec![1], vec![]));
    sibling.plates.insert(11, plate(11, 3, vec![2], vec![]));
    assert!(sibling.validate_plate_semantics().is_err());
}

#[test]
fn plate_errors_name_the_rule_and_ids() {
    let mut missing = GraphIR::new();
    missing.plates.insert(10, plate(10, 1, vec![99], vec![]));
    let e = missing.validate_plate_semantics().unwrap_err();
    assert_eq!(e, PlateError::MissingNode { plate: 10, node: 99 });
    assert_eq!(e.message(), "plate 10 contains missing node 99");

    let mut cycle = GraphIR::new();
    cycle.plates.insert(10, plate(10, 1, vec![], vec![11]));
    cycle.plates.insert(11, plate(11, 1, vec![], vec![10]));
    let e = cycle.validate_plate_semantics().unwrap_err();
    assert!(e.message().starts_with("plate hierarchy contains a cycle: ["));

    let mut outward = GraphIR::new();
    outward.nodes.insert(1, scalar(1));
    outward.nodes.insert(2, compute(2, 1));
    outward.plates.insert(10, plate(10, 3, vec![1], vec![]));
    let e = outward.validate_plate_semantics().unwrap_err();
    assert_eq!(
        e.message(),
        "invalid plate dependency from node 1 in scope [10] to node 2 in scope root"
    );

    let mut dup = GraphIR::new();
    dup.nodes.insert(1, scalar(1));
    dup.plates.insert(10, plate(10, 1, vec![1, 1], vec![]));
    assert_eq!(
        dup.validate_plate_semantics().unwrap_err().message(),
        "plate 10 lists node 1 more than once"
    );

    let mut no_data = GraphIR::new();
    let mut p = plate(10, 1, vec![], vec![]);
    p.data.clear();
    no_data.plates.insert(10, p);
    assert_eq!(no_data.validate_plate_semantics().unwrap_err().message(), "plate 10 has no dataset");
}

#[test]
fn missing_producer_is_reported() {
    let mut graph = GraphIR::new();
    graph.nodes.insert(2, compute(2, 7));
    let e = graph.validate_plate_semantics().unwrap_err();
    assert_eq!(e, PlateError::MissingProducer { consumer: 2, producer: 7 });
    assert_eq!(e.message(), "node 2 references missing node 7");
}

#[test]
fn plate_errors_name_the_lower_plate_first() {
    let mut missing = GraphIR::new();
    missing.plates.insert(10, plate(10, 1, vec![99], vec![]));
    assert_eq!(missing.validate_plate_semantics().map_err(|e| e.message()), Err("plate 10 contains missing node 99".to_string()));

    let mut duplicate_node = GraphIR::new();
    duplicate_node.nodes.insert(1, scalar(1));
    duplicate_node.plates.insert(10, plate(10, 1, vec![1], vec![]));
    duplicate_node.plates.insert(11, plate(11, 1, vec![1], vec![]));
    assert_eq!(
        duplicate_node.validate_plate_semantics().map_err(|e| e.message()),
        Err("node 1 belongs directly to both plate 10 and plate 11".to_string())
    );

    let mut duplicate_parent = GraphIR::new();
    duplicate_parent.plates.insert(10, plate(10, 1, vec![], vec![12]));
    duplicate_parent.plates.insert(11, plate(11, 1, vec![], vec![12]));
    duplicate_parent.plates.insert(12, plate(12, 1, vec![], vec![]));
    assert_eq!(
        duplicate_parent.validate_plate_semantics().map_err(|e| e.message()),
        Err("plate 12 has multiple parents: 10 and 11".to_string())
    );

    let mut cycle = GraphIR::new();
    cycle.plates.insert(10, plate(10, 1, vec![], vec![11]));
    cycle.plates.insert(11, plate(11, 1, vec![], vec![10]));
    assert_eq!(cycle.validate_plate_semantics().map_err(|e| e.message()), Err("plate hierarchy contains a cycle: [10, 11, 10]".to_string()));
}

#[test]
fn a_self_loop_is_reported_once() {
    let mut g = GraphIR::new();
    g.nodes.insert(1, compute(1, 1));
    assert_eq!(g.check_cycles(), Err(vec![1]));
    let mut two = GraphIR::new();
    two.nodes.insert(1, compute(1, 2));
    two.nodes.insert(2, compute(2, 1));
    let c = two.check_cycles().unwrap_err();
    assert_eq!(c.len(), 2);
    assert_ne!(c[0], c[1]);
}

#[test]
fn the_first_value_seen_again_is_reported() {
    assert_eq!(ensure_unique(&vec![1, 2, 3, 2, 1]), Err(2));
    assert_eq!(ensure_unique(&vec![]), Ok(()));
    assert_eq!(ensure_unique(&vec![5, 6, 7]), Ok(()));
}

#[test]
fn dataset_column_names_are_distinct() {
    let mut g = GraphIR::new();
    let mut p = plate(10, 1, vec![], vec![]);
    p.data.push(DataColumn { name: "x".to_string(), values: vec![0.0f64.to_bits()] });
    p.data.push(DataColumn { name: "value".to_string(), values: vec![1.0f64.to_bits()] });
    g.plates.insert(10, p);
    assert_eq!(
        g.validate_plate_semantics().map_err(|e| e.message()),
        Err("plate 10 has dataset column \"value\" more than once".to_string())
    );
}

#[test]
fn the_smallest_failing_plate_and_its_first_rule_are_reported() {
    let mut g = GraphIR::new();
    g.nodes.insert(1, scalar(1));
    let mut no_data = plate(12, 1, vec![], vec![]);
    no_data.data.clear();
    g.plates.insert(12, no_data);
    g.plates.insert(10, plate(10, 1, vec![1, 98, 99], vec![]));
    assert_eq!(g.validate_plate_semantics().map_err(|e| e.message()), Err("plate 10 contains missing node 98".to_string()));

    let mut mappings = GraphIR::new();
    mappings.nodes.insert(1, scalar(1));
    mappings.nodes.insert(2, compute(2, 1));
    let mut p = plate(10, 1, vec![1, 2], vec![]);
    p.mapping.insert(2, "value".to_string());
    p.mapping.insert(1, "absent".to_string());
    mappings.plates.insert(10, p);
    assert_eq!(
        mappings.validate_plate_semantics().map_err(|e| e.message()),
        Err("plate 10 maps node 1 to missing column \"absent\"".to_string())
    );
}

#[test]
fn the_first_parameter_leaving_its_scope_is_reported() {
    let mut g = GraphIR::new();
    g.nodes.insert(1, scalar(1));
    g.nodes.insert(2, scalar(2));
    g.nodes.insert(
        3,
        NodeIR::Compute {
            id: 3,
            operation: Operation::Add,
            params: vec![ParamIR { from_node: 1, param_name: None }, ParamIR { from_node: 2, param_name: None }],
        },
    );
    g.plates.insert(10, plate(10, 1, vec![2], vec![]));
    g.plates.insert(11, plate(11, 1, vec![1], vec![]));
    assert_eq!(
        g.validate_plate_semantics().map_err(|e| e.message()),
        Err("invalid plate dependency from node 1 in scope [11] to node 3 in scope root".to_string())
    );
}
