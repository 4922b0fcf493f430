use bayesian_visualizer::graph_ir::{DataColumn, GraphIR, NodeIR, Operation, ParamIR, PlateIR};
use bayesian_visualizer::instance_plan::{fixed_step_value, ModelPlan};
use bayesian_visualizer::model_plan::{compiled_params, instance_address, node_display_name, resolve_param_keys, CompiledParam};
use bayesian_visualizer::model_values::{first_scalar, materialize_values, ModelResult, NodeValueText};
use std::collections::HashMap;

fn bits(x: f64) -> u64 {
    x.to_bits()
}

fn param(from_node: u32) -> ParamIR {
    ParamIR { from_node, param_name: None }
}

fn linked_graph() -> GraphIR {
    let mut graph = GraphIR::new();
    graph.nodes.insert(1, NodeIR::Scalar { id: 1, value: bits(0.0) });
    graph.nodes.insert(2, NodeIR::Scalar { id: 2, value: bits(1.0) });
    graph.nodes.insert(
        3,
        NodeIR::Random {
            id: 3,
            label: None,
            dist_type: "Normal".to_string(),
            params: vec![param(1), param(2)],
        },
    );
    graph.nodes.insert(4, NodeIR::Scalar { id: 4, value: bits(999.0) });
    graph.plates.insert(
        10,
        PlateIR {
            id: 10,
            n: 2,
            nodes: vec![3, 4],
            plates: Vec::new(),
            data: vec![DataColumn { name: "x".to_string(), values: vec![bits(1.25), bits(-0.5)] }],
            mapping: HashMap::from([(3, "x".to_string()), (4, "x".to_string())]),
        },
    );
    graph
}

/// The value each step takes when every unbound random node draws `draw` and
/// bound instances take their dataset value.
fn evaluate(plan: &ModelPlan, draw: u64) -> Vec<u64> {
    plan.steps.iter().map(|step| fixed_step_value(step).unwrap_or(draw)).collect()
}

#[test]
fn linked_column_observes_random_nodes_and_replaces_scalar_literals() {
    let graph = linked_graph();
    let plan = graph.create_model_plan().unwrap();
    let values = evaluate(&plan, bits(7.0));
    let materialized = materialize_values(&plan, &values).unwrap();
    let expected = ModelResult::Plate(vec![ModelResult::Scalar(bits(1.25)), ModelResult::Scalar(bits(-0.5))]);

    assert_eq!(materialized[&3], expected);
    assert_eq!(materialized[&4], expected);
}

#[test]
fn plan_orders_instances_after_their_inputs() {
    let graph = linked_graph();
    let plan = graph.create_model_plan().unwrap();
    let keys: Vec<(u32, Vec<usize>)> = plan.steps.iter().map(|s| (s.node_id, s.indices.clone())).collect();
    assert_eq!(
        keys,
        vec![(1, vec![]), (2, vec![]), (3, vec![0]), (4, vec![0]), (3, vec![1]), (4, vec![1])]
    );
    assert_eq!(plan.reads[2], vec![0, 1]);
    assert_eq!(plan.reads[4], vec![0, 1]);
    assert!(plan.reads[0].is_empty());
    assert_eq!(plan.steps[2].data_value, Some(bits(1.25)));
    assert_eq!(plan.steps[4].data_value, Some(bits(-0.5)));
    assert_eq!(plan.steps[0].data_value, None);
}

#[test]
fn plan_reports_cycles_missing_nodes_and_missing_rows() {
    let mut cyclic = GraphIR::new();
    cyclic.nodes.insert(1, NodeIR::Compute { id: 1, operation: Operation::Exponential, params: vec![param(2)] });
    cyclic.nodes.insert(2, NodeIR::Compute { id: 2, operation: Operation::Exponential, params: vec![param(1)] });
    let error = cyclic.create_model_plan().unwrap_err();
    assert!(error.starts_with("graph contains a cycle including node IDs: ["));

    let mut missing = GraphIR::new();
    missing.nodes.insert(1, NodeIR::Compute { id: 1, operation: Operation::Exponential, params: vec![param(5)] });
    assert_eq!(missing.create_model_plan().unwrap_err(), "node 1 references missing node 5");

    let mut short = linked_graph();
    short.plates.get_mut(&10).unwrap().n = 3;
    assert_eq!(short.create_model_plan().unwrap_err(), "plate 10 column \"x\" has no value at row 2");
}

#[test]
fn instance_addresses_pair_plates_with_indices() {
    assert_eq!(instance_address(3, &vec![10, 11], &vec![1, 4]), "node#3/plate#10[1]/plate#11[4]");
    assert_eq!(instance_address(3, &vec![10, 11], &vec![2]), "node#3/plate#10[2]");
    assert_eq!(instance_address(7, &vec![], &vec![]), "node#7");
}

#[test]
fn compiled_params_carry_producer_paths() {
    let mut paths = HashMap::new();
    paths.insert(1, vec![10]);
    paths.insert(2, vec![]);
    let params = compiled_params(&vec![param(1), param(2)], &paths).unwrap();
    assert_eq!(params[0].producer_depth, 1);
    assert_eq!(params[0].producer_plate_ids, vec![10]);
    assert_eq!(params[1].producer_depth, 0);
    assert_eq!(
        compiled_params(&vec![param(1), param(9)], &paths).err().unwrap(),
        "parameter references missing node 9"
    );
}

#[test]
fn param_keys_take_the_producer_prefix() {
    let params = vec![
        CompiledParam { from_node: 1, producer_depth: 1, producer_plate_ids: vec![10] },
        CompiledParam { from_node: 2, producer_depth: 0, producer_plate_ids: vec![] },
    ];
    let keys = resolve_param_keys(&params, &vec![3, 5]).unwrap();
    assert_eq!(keys[0].node_id, 1);
    assert_eq!(keys[0].indices, vec![3]);
    assert!(keys[1].indices.is_empty());
    let deep = vec![CompiledParam { from_node: 4, producer_depth: 2, producer_plate_ids: vec![10, 11] }];
    assert_eq!(
        resolve_param_keys(&deep, &vec![0]).unwrap_err(),
        "node 4 requires a deeper plate scope than its consumer"
    );
}

#[test]
fn display_names_use_labels_of_random_nodes() {
    let labelled = NodeIR::Random { id: 3, label: Some("theta".to_string()), dist_type: "Normal".to_string(), params: vec![] };
    assert_eq!(node_display_name(&labelled), "theta (node 3)");
    assert_eq!(node_display_name(&NodeIR::Scalar { id: 4, value: 0 }), "node 4");
}

#[test]
fn model_values_are_listed_per_instance() {
    let graph = linked_graph();
    let plan = graph.create_model_plan().unwrap();
    let values = evaluate(&plan, bits(7.0));
    let materialized = materialize_values(&plan, &values).unwrap();
    let lines = graph.format_model_values(&materialized).unwrap();
    let labels: Vec<String> = lines.iter().map(|l| l.label.clone()).collect();
    assert_eq!(
        labels,
        vec![
            "node 1 @ node#1",
            "node 2 @ node#2",
            "node 3 @ node#3/plate#10[0]",
            "node 3 @ node#3/plate#10[1]",
            "node 4 @ node#4/plate#10[0]",
            "node 4 @ node#4/plate#10[1]",
        ]
    );
    assert_eq!(lines[3].value, bits(-0.5));

    match graph.format_node_value(3, &materialized[&3]).unwrap() {
        NodeValueText::Lines(lines) => assert_eq!(lines.len(), 2),
        NodeValueText::Whole(_) => panic!("expected one line per row"),
    }
    match graph.format_node_value(3, &ModelResult::Plate(vec![])).unwrap() {
        NodeValueText::Whole(label) => assert_eq!(label, "node 3 @ node#3"),
        NodeValueText::Lines(_) => panic!("expected the whole value"),
    }
    assert_eq!(
        graph.format_node_value(3, &ModelResult::Scalar(0)).unwrap_err(),
        "node 3 is missing plate dimension 10"
    );
    assert_eq!(
        graph
            .format_node_value(1, &ModelResult::Plate(vec![ModelResult::Scalar(0)]))
            .unwrap_err(),
        "node 1 has an unexpected extra plate dimension"
    );
    let mut partial = HashMap::new();
    partial.insert(1, ModelResult::Scalar(0));
    assert_eq!(graph.format_model_values(&partial).unwrap_err(), "sample results are missing node 2");
}

#[test]
fn the_first_scalar_is_found_depth_first() {
    let bits = |x: f64| x.to_bits();
    assert_eq!(first_scalar(&ModelResult::Scalar(bits(3.5))), Some(bits(3.5)));
    assert_eq!(first_scalar(&ModelResult::Plate(vec![])), None);
    assert_eq!(first_scalar(&ModelResult::Plate(vec![ModelResult::Plate(vec![]), ModelResult::Plate(vec![])])), None);
    let nested = ModelResult::Plate(vec![
        ModelResult::Plate(vec![]),
        ModelResult::Plate(vec![ModelResult::Scalar(bits(5.0)), ModelResult::Scalar(bits(6.0))]),
        ModelResult::Scalar(bits(7.0)),
    ]);
    assert_eq!(first_scalar(&nested), Some(bits(5.0)));
}

#[test]
fn mapped_scalars_take_the_row_value_and_random_nodes_are_observed() {
    let graph = linked_graph();
    let plan = graph.create_model_plan().unwrap();
    for step in &plan.steps {
        match (&step.node, step.data_value) {
            (_, Some(v)) => assert_eq!(fixed_step_value(step), Some(v)),
            (NodeIR::Scalar { value, .. }, None) => assert_eq!(fixed_step_value(step), Some(*value)),
            _ => assert_eq!(fixed_step_value(step), None),
        }
    }
    assert!(plan.steps.iter().any(|s| matches!(s.node, NodeIR::Scalar { .. }) && s.data_value.is_some()));
}
