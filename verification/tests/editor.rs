use bayesian_visualizer::compilation::{
    compile, compile_ir, node_plate_membership_changed, EditorPlate, NodeDraft, ParamSlot, ParamSource,
};
use bayesian_visualizer::editor_events::{
    autofill_next_param, invalidate_compilation_on_graph_change, node_click_action, node_type_named, pick_param, NodeClickAction,
    update_graph_cursor, CompilationSession, GraphCursorState, JobControl, NodeType,
};
use bayesian_visualizer::expressions::{get_ents_and_labels, node_expression, ExprNode};
use bayesian_visualizer::graph_ir::{DataColumn, GraphIR, NodeIR, Operation, ParamIR};
use bayesian_visualizer::datasets::{dataset_fields, parse_dataset, DatasetError};
use bayesian_visualizer::inference::{NodeInstanceSamples, PosteriorSample};
use bayesian_visualizer::posterior_views::SelectionContext;
use bayesian_visualizer::sample_selections::SampleSelections;
use bayesian_visualizer::distributions::{distribution_kind, DistributionKind};
use bayesian_visualizer::histogram_controls::{
    apply_typed_histogram_bin_count, clamped_bin_count, histogram_heading, histogram_instances, InferenceResultState, decremented_bin_count, incremented_bin_count, MAX_HISTOGRAM_BINS,
};
use bayesian_visualizer::node_labels::{
    available_links, menu_operation, node_is_observed, operation_label, operation_symbol, random_node_description, LinkSource,
    compute_params, distribution_params, entered_node_name, random_node_label, scalar_display_label, MAX_NODE_NAME_CHARS,
};
use bayesian_visualizer::numbers::{parse_count, parse_positive_count, parse_seed, parse_whole, typed_plate_size};
use bayesian_visualizer::plate_geometry::{PlateBounds, Point};
use bayesian_visualizer::plate_mapping::{
    plate_contents, plate_mapping_menu, plate_row_label, refresh_mapping, reset_mapping, select_plate_mapping,
};
use bayesian_visualizer::reduced_view::{collect_nearest_randoms, spawn_reduced_links, LinkNode};
use bayesian_visualizer::presets::{preset_confirmation, validate_preset, PresetNodeRefs, PresetPlateRefs, PresetRequest};
use std::collections::HashMap;

fn point(x: f32, y: f32) -> Point {
    Point::from_bits(x.to_bits(), y.to_bits())
}

fn bounds(a: (f32, f32), b: (f32, f32)) -> PlateBounds {
    PlateBounds::from_points(point(a.0, a.1), point(b.0, b.1))
}

fn slot(name: &str, source: ParamSource) -> ParamSlot {
    ParamSlot { name: name.to_string(), source }
}

fn column(name: &str, values: &[f64]) -> DataColumn {
    DataColumn { name: name.to_string(), values: values.iter().map(|v| v.to_bits()).collect() }
}

fn normal(id: u32, mean: ParamSource, sd: ParamSource) -> NodeDraft {
    NodeDraft::Random {
        id: Some(id),
        label: Some("x".to_string()),
        dist_type: "Normal".to_string(),
        params: vec![slot("mean", mean), slot("std_dev", sd)],
    }
}

fn scalar(id: u32, v: f64) -> NodeDraft {
    NodeDraft::Scalar { id: Some(id), value: v.to_bits() }
}

#[test]
fn counts_are_trimmed_whole_numbers() {
    assert_eq!(parse_count(" 12 ", "number of samples"), Ok(12));
    assert_eq!(parse_count("+7", "n"), Ok(7));
    assert_eq!(parse_count("\u{3000}3\t", "n"), Ok(3));
    assert_eq!(parse_count("", "n"), Err("n must be a non-negative whole number".to_string()));
    assert_eq!(parse_count("-1", "n"), Err("n must be a non-negative whole number".to_string()));
    assert_eq!(parse_count("1 2", "n"), Err("n must be a non-negative whole number".to_string()));
    assert_eq!(parse_count("+", "n"), Err("n must be a non-negative whole number".to_string()));
    assert_eq!(
        parse_count("99999999999999999999999", "number of rounds"),
        Err("number of rounds must be a non-negative whole number".to_string())
    );
    assert_eq!(parse_positive_count("0", "number of samples"), Err("number of samples must be greater than zero".to_string()));
    assert_eq!(parse_positive_count("5", "number of samples"), Ok(5));
    assert_eq!(parse_positive_count("x", "number of samples"), Err("number of samples must be a non-negative whole number".to_string()));
}

#[test]
fn whole_numbers_respect_the_limit() {
    assert_eq!(parse_whole("18446744073709551615", u64::MAX), Some(u64::MAX));
    assert_eq!(parse_whole("18446744073709551616", u64::MAX), None);
    assert_eq!(parse_whole("255", 255), Some(255));
    assert_eq!(parse_whole("256", 255), None);
    assert_eq!(parse_whole("007", 10), Some(7));
}

#[test]
fn seeds_may_be_blank() {
    assert_eq!(parse_seed("  "), Ok(None));
    assert_eq!(parse_seed(""), Ok(None));
    assert_eq!(parse_seed(" 42"), Ok(Some(42)));
    assert_eq!(parse_seed("4.2"), Err("Random seed must be a non-negative whole number or blank.".to_string()));
}

#[test]
fn compile_ir_builds_nodes_and_plates() {
    let drafts = vec![scalar(1, 0.0), scalar(2, 1.0), normal(3, ParamSource::Node(1), ParamSource::Node(2))];
    let plates = vec![EditorPlate {
        id: 10,
        bounds: bounds((0.0, 0.0), (100.0, 100.0)),
        n: 2,
        data: vec![column("y", &[1.0, 2.0])],
        mapping: vec![(Some(3), "y".to_string()), (Some(1), "unobserved".to_string())],
    }];
    let positions = vec![(1, point(-10.0, 0.0)), (2, point(-20.0, 0.0)), (3, point(50.0, 50.0))];

    let graph = compile_ir(&drafts, &plates, &positions).unwrap();

    assert_eq!(graph.nodes.len(), 3);
    match &graph.nodes[&3] {
        NodeIR::Random { id, label, dist_type, params } => {
            assert_eq!(*id, 3);
            assert_eq!(label.as_deref(), Some("x"));
            assert_eq!(dist_type, "Normal");
            assert_eq!(params.len(), 2);
            assert_eq!(params[0].from_node, 1);
            assert_eq!(params[0].param_name.as_deref(), Some("mean"));
            assert_eq!(params[1].from_node, 2);
        }
        other => panic!("unexpected node {other:?}"),
    }
    let plate = &graph.plates[&10];
    assert_eq!(plate.nodes, vec![3]);
    assert_eq!(plate.n, 2);
    assert_eq!(plate.data.len(), 1);
    assert_eq!(plate.mapping, HashMap::from([(3, "y".to_string())]));
}

#[test]
fn compile_ir_reports_the_first_problem() {
    let unset = vec![scalar(1, 0.0), normal(3, ParamSource::Node(1), ParamSource::Unset)];
    assert_eq!(compile_ir(&unset, &vec![], &vec![]).unwrap_err(), "A node has unspecified parameters!");

    let missing = vec![normal(3, ParamSource::Missing, ParamSource::Unset)];
    assert_eq!(compile_ir(&missing, &vec![], &vec![]).unwrap_err(), "Parameter references a missing node!");

    let no_id = vec![NodeDraft::Scalar { id: None, value: 0 }];
    assert_eq!(compile_ir(&no_id, &vec![], &vec![]).unwrap_err(), "Node is missing its GraphNode ID");

    let empty_plate = vec![EditorPlate { id: 4, bounds: bounds((0.0, 0.0), (10.0, 10.0)), n: 1, data: vec![], mapping: vec![] }];
    assert_eq!(compile_ir(&vec![], &empty_plate, &vec![]).unwrap_err(), "plate 4 has no dataset");

    let gone = vec![EditorPlate {
        id: 4,
        bounds: bounds((0.0, 0.0), (10.0, 10.0)),
        n: 1,
        data: vec![column("y", &[1.0])],
        mapping: vec![(None, "unobserved".to_string()), (None, "y".to_string())],
    }];
    assert_eq!(compile_ir(&vec![], &gone, &vec![]).unwrap_err(), "plate 4 maps a missing node");

    let overlapping = vec![
        EditorPlate { id: 4, bounds: bounds((0.0, 0.0), (10.0, 10.0)), n: 1, data: vec![column("y", &[1.0])], mapping: vec![] },
        EditorPlate { id: 5, bounds: bounds((5.0, 5.0), (15.0, 15.0)), n: 1, data: vec![column("y", &[1.0])], mapping: vec![] },
    ];
    assert!(compile_ir(&vec![], &overlapping, &vec![]).unwrap_err().contains("partially overlap"));
}

fn param(from_node: u32) -> ParamIR {
    ParamIR { from_node, param_name: None }
}

#[test]
fn compile_reports_cycles_and_accepts_a_plain_model() {
    let mut graph = GraphIR::new();
    graph.nodes.insert(1, NodeIR::Compute { id: 1, operation: Operation::Add, params: vec![param(2), param(2)] });
    graph.nodes.insert(2, NodeIR::Compute { id: 2, operation: Operation::Exponential, params: vec![param(1)] });
    let error = compile(&graph).unwrap_err();
    assert!(error.starts_with("Graph contains a cycle including node IDs: "), "{error}");

    let mut plain = GraphIR::new();
    plain.nodes.insert(1, NodeIR::Scalar { id: 1, value: 0.0f64.to_bits() });
    plain.nodes.insert(2, NodeIR::Scalar { id: 2, value: 1.0f64.to_bits() });
    plain.nodes.insert(
        3,
        NodeIR::Random { id: 3, label: None, dist_type: "Normal".to_string(), params: vec![param(1), param(2)] },
    );
    let plan = compile(&plain).unwrap();
    assert_eq!(plan.steps.len(), 3);
}

#[test]
fn membership_changes_only_when_direct_contents_change() {
    let drafts = vec![scalar(1, 0.0)];
    let plates = vec![EditorPlate {
        id: 10,
        bounds: bounds((0.0, 0.0), (100.0, 100.0)),
        n: 2,
        data: vec![column("y", &[1.0, 2.0])],
        mapping: vec![],
    }];
    let graph = compile_ir(&drafts, &plates, &vec![(1, point(5.0, 5.0))]).unwrap();
    let current = vec![(10, bounds((0.0, 0.0), (100.0, 100.0)))];

    assert!(!node_plate_membership_changed(&graph, &current, &vec![(1, point(50.0, 60.0))]));
    assert!(node_plate_membership_changed(&graph, &current, &vec![(1, point(150.0, 60.0))]));
    assert!(node_plate_membership_changed(&graph, &vec![], &vec![(1, point(5.0, 5.0))]));
    assert!(node_plate_membership_changed(&graph, &vec![(11, bounds((0.0, 0.0), (100.0, 100.0)))], &vec![]));
}

fn preset_node(id: u32, sources: Vec<Option<u32>>) -> PresetNodeRefs {
    PresetNodeRefs { id, position_finite: true, value_finite: true, sources }
}

#[test]
fn presets_are_checked_in_order() {
    let datasets = vec!["sat".to_string()];
    let nodes = vec![preset_node(1, vec![]), preset_node(2, vec![Some(1), None])];
    let plate = |id: u32, dataset: &str, mapped: Vec<u32>| PresetPlateRefs {
        id,
        bounds_valid: true,
        dataset_id: dataset.to_string(),
        mapped_nodes: mapped,
    };
    assert_eq!(validate_preset(&nodes, &vec![plate(5, "sat", vec![2])], &datasets), Ok(()));
    assert_eq!(validate_preset(&nodes, &vec![plate(5, "No dataset", vec![])], &datasets), Ok(()));
    assert_eq!(
        validate_preset(&nodes, &vec![plate(2, "sat", vec![])], &datasets),
        Err("duplicate graph ID 2".to_string())
    );
    assert_eq!(
        validate_preset(&nodes, &vec![plate(5, "gpa", vec![])], &datasets),
        Err("dataset 'gpa' was not found".to_string())
    );
    assert_eq!(
        validate_preset(&nodes, &vec![plate(5, "sat", vec![2, 9])], &datasets),
        Err("plate 5 maps missing node 9".to_string())
    );
    let dangling = vec![preset_node(1, vec![Some(7)])];
    assert_eq!(validate_preset(&dangling, &vec![], &datasets), Err("node 1 references missing node 7".to_string()));
    let repeated = vec![preset_node(1, vec![]), preset_node(1, vec![])];
    assert_eq!(validate_preset(&repeated, &vec![], &datasets), Err("duplicate graph ID 1".to_string()));
    let unplaced = vec![PresetNodeRefs { id: 4, position_finite: false, value_finite: true, sources: vec![] }];
    assert_eq!(validate_preset(&unplaced, &vec![], &datasets), Err("node 4 has a non-finite position".to_string()));
    let bad_value = vec![PresetNodeRefs { id: 4, position_finite: true, value_finite: false, sources: vec![] }];
    assert_eq!(validate_preset(&bad_value, &vec![], &datasets), Err("node 4 has a non-finite scalar value".to_string()));
    let bad_bounds = vec![PresetPlateRefs { id: 6, bounds_valid: false, dataset_id: "sat".to_string(), mapped_nodes: vec![] }];
    assert_eq!(validate_preset(&nodes, &bad_bounds, &datasets), Err("plate 6 has invalid bounds".to_string()));
}

#[test]
fn expressions_follow_the_linked_nodes() {
    let mut nodes = HashMap::new();
    nodes.insert(1, ExprNode::Random { name: Some("a".to_string()) });
    nodes.insert(2, ExprNode::Random { name: None });
    nodes.insert(3, ExprNode::Scalar { text: "2.0".to_string() });
    nodes.insert(4, ExprNode::Compute { operation: Operation::Multiply, params: vec![Some(1), Some(2)] });
    nodes.insert(5, ExprNode::Compute { operation: Operation::Add, params: vec![Some(4), Some(3)] });
    nodes.insert(6, ExprNode::Compute { operation: Operation::Logarithm, params: vec![Some(5)] });
    nodes.insert(7, ExprNode::Compute { operation: Operation::Sum, params: vec![Some(1), None, Some(3)] });
    nodes.insert(8, ExprNode::Compute { operation: Operation::Product, params: vec![] });
    nodes.insert(9, ExprNode::Compute { operation: Operation::Subtract, params: vec![Some(9)] });

    assert_eq!(node_expression(&nodes, 5, false), "(a * var) + 2.0");
    assert_eq!(node_expression(&nodes, 5, true), "((a * var) + 2.0)");
    assert_eq!(node_expression(&nodes, 6, false), "log((a * var) + 2.0)");
    assert_eq!(node_expression(&nodes, 7, false), "sum(a, ?, 2.0)");
    assert_eq!(node_expression(&nodes, 8, false), "product(?)");
    assert_eq!(node_expression(&nodes, 9, false), "? - ?");
    assert_eq!(node_expression(&nodes, 42, false), "?");

    let links = vec![(5, Some(6)), (1, Some(4)), (2, Some(4)), (3, None)];
    assert_eq!(get_ents_and_labels(&nodes, &links, 4), vec![(1, "a".to_string()), (2, "var".to_string())]);
}

#[test]
fn selector_buttons_take_three_quarters_of_the_sidebar() {
    let button = bayesian_visualizer::sidebar_layout::selector_button("dist", "Normal");
    assert_eq!(button.name, "dist");
    assert_eq!(button.label, "Normal");
    assert_eq!(button.width_px, 225);
    assert_eq!(button.height_px, 30);
    assert_eq!(button.border_px, 5);
    assert_eq!(button.margin_bottom_px, 4);
}

#[test]
fn scopes_are_written_as_plate_paths() {
    assert_eq!(bayesian_visualizer::plate_errors::format_scope(&vec![]), "root");
    assert_eq!(bayesian_visualizer::plate_errors::format_scope(&vec![3, 7]), "[3, 7]");
}

#[test]
fn plate_rows_list_contained_nodes_by_id_and_refresh_their_mapping() {
    let plate = bounds((0.0, 0.0), (10.0, 10.0));
    let nodes = vec![(100, 7, point(1.0, 1.0)), (101, 3, point(10.0, 5.0)), (102, 5, point(11.0, 5.0))];

    let contents = plate_contents(plate, &nodes);
    assert_eq!(contents, vec![(101, 3), (100, 7)]);

    let mut mapping = HashMap::from([(100, "y".to_string()), (102, "x".to_string())]);
    refresh_mapping(&mut mapping, &contents);
    assert_eq!(mapping, HashMap::from([(100, "y".to_string()), (101, "unobserved".to_string())]));

    assert_eq!(plate_row_label(7, Some((Some("theta"), "Normal"))), "theta ~ Normal");
    assert_eq!(plate_row_label(7, Some((None, "Gamma"))), "var id 7 ~ Gamma");
    assert_eq!(plate_row_label(3, None), "scalar 3");
}

#[test]
fn reduced_view_links_random_nodes_through_operations() {
    let mut nodes = HashMap::new();
    nodes.insert(1, LinkNode::Random { params: vec![None] });
    nodes.insert(2, LinkNode::Random { params: vec![] });
    nodes.insert(3, LinkNode::Scalar);
    nodes.insert(4, LinkNode::Compute { params: vec![Some(1), Some(3), Some(5)] });
    nodes.insert(5, LinkNode::Compute { params: vec![Some(2), Some(4)] });
    nodes.insert(6, LinkNode::Random { params: vec![Some(4), Some(6), None] });

    let mut found = collect_nearest_randoms(&nodes, 4);
    found.sort_unstable();
    assert_eq!(found, vec![1, 2]);
    assert_eq!(collect_nearest_randoms(&nodes, 3), Vec::<u64>::new());

    let mut links = spawn_reduced_links(&nodes, &vec![1, 2, 3, 4, 5, 6]);
    links.sort_unstable();
    assert_eq!(links, vec![(1, 6), (2, 6)]);
}

#[test]
fn clicks_complete_start_or_select() {
    assert_eq!(node_click_action(false, Some(4), 4, false, 10, 1), NodeClickAction::CancelLink);
    assert_eq!(node_click_action(false, Some(4), 5, true, 10, 1), NodeClickAction::CompleteLink { from: 4, to: 5 });
    assert_eq!(node_click_action(false, None, 5, true, 10, 1), NodeClickAction::StartLink { from: 5 });
    assert_eq!(node_click_action(true, Some(4), 5, true, 10, 1), NodeClickAction::Select);
    assert_eq!(node_click_action(false, None, 5, false, 250, 1), NodeClickAction::Ignore);
    assert_eq!(node_click_action(false, None, 5, false, 10, 2), NodeClickAction::Ignore);
}

#[test]
fn a_new_link_fills_the_first_open_parameter() {
    let mut params = vec![Some(1), None, None];
    assert_eq!(autofill_next_param(&mut params, 9), Some(1));
    assert_eq!(params, vec![Some(1), Some(9), None]);
    let mut full = vec![Some(1)];
    assert_eq!(autofill_next_param(&mut full, 9), None);
    assert_eq!(full, vec![Some(1)]);
}

#[test]
fn written_counts_read_back() {
    for n in [0usize, 7, 10, 99, 12345, usize::MAX] {
        assert_eq!(parse_count(&format!(" \t{n}\n"), "n"), Ok(n));
    }
}

#[test]
fn typed_names_are_cut_to_the_limit() {
    assert_eq!(entered_node_name(""), None);
    assert_eq!(entered_node_name("mu"), Some("mu".to_string()));
    assert_eq!(entered_node_name("abcdefghijklmnop"), Some("abcdefghij".to_string()));
    assert_eq!(entered_node_name("\u{3b1}\u{3b2}\u{3b3}\u{3b4}\u{3b5}\u{3b6}\u{3b7}\u{3b8}\u{3b9}\u{3ba}\u{3bb}").map(|n| n.chars().count()), Some(MAX_NODE_NAME_CHARS));
}

#[test]
fn node_labels_fall_back_in_order() {
    assert_eq!(random_node_label(Some("theta"), 7), "theta");
    assert_eq!(random_node_label(None, 42), "42");
    let columns = vec![None, Some("unobserved".to_string()), Some("height".to_string()), Some("weight".to_string())];
    assert_eq!(scalar_display_label(Some("c"), &columns, "1.5"), "c");
    assert_eq!(scalar_display_label(None, &columns, "1.5"), "height");
    assert_eq!(scalar_display_label(None, &vec![None, Some("unobserved".to_string())], "1.5"), "1.5");
    assert_eq!(scalar_display_label(None, &vec![], "0.0"), "0.0");
}

#[test]
fn parameter_names_per_node_kind() {
    assert_eq!(compute_params(Operation::Divide), vec!["dividend", "divisor"]);
    assert_eq!(compute_params(Operation::Power), vec!["base", "exponent"]);
    assert_eq!(compute_params(Operation::Sum), vec!["values"]);
    assert_eq!(compute_params(Operation::Add), vec!["first", "second"]);
    assert_eq!(distribution_params(DistributionKind::Gamma), vec!["shape", "scale"]);
    assert_eq!(distribution_params(DistributionKind::Exponential), vec!["rate"]);
    assert_eq!(distribution_params(DistributionKind::Uniform), vec!["min", "max"]);
    for name in ["Normal", "LogNormal", "Gamma", "Beta", "Exponential", "Uniform"] {
        let kind = distribution_kind(name, 1).or_else(|_| distribution_kind(name, 2)).unwrap();
        let n = distribution_params(kind).len();
        assert!(distribution_kind(name, n).is_ok());
    }
}

#[test]
fn typed_bin_counts_are_checked() {
    assert_eq!(apply_typed_histogram_bin_count(" 25 ", 10), (25, None));
    assert_eq!(apply_typed_histogram_bin_count("+7", 10), (7, None));
    assert_eq!(apply_typed_histogram_bin_count("200", 10), (200, None));
    let refused = Some("Histogram bins must be from 1 to 200.".to_string());
    assert_eq!(apply_typed_histogram_bin_count("201", 10), (10, refused.clone()));
    assert_eq!(apply_typed_histogram_bin_count("0", 10), (10, refused.clone()));
    assert_eq!(apply_typed_histogram_bin_count("-3", 10), (10, refused.clone()));
    assert_eq!(apply_typed_histogram_bin_count("ten", 12), (12, refused));
}

#[test]
fn bin_steps_stay_in_range_and_undo_each_other() {
    assert_eq!(incremented_bin_count(20), 21);
    assert_eq!(incremented_bin_count(MAX_HISTOGRAM_BINS), MAX_HISTOGRAM_BINS);
    assert_eq!(incremented_bin_count(usize::MAX), MAX_HISTOGRAM_BINS);
    assert_eq!(decremented_bin_count(20), 19);
    assert_eq!(decremented_bin_count(1), 1);
    assert_eq!(decremented_bin_count(0), 1);
    assert_eq!(clamped_bin_count(0), 1);
    assert_eq!(clamped_bin_count(500), MAX_HISTOGRAM_BINS);
    assert_eq!(clamped_bin_count(30), 30);
    for c in 1..MAX_HISTOGRAM_BINS {
        assert_eq!(decremented_bin_count(incremented_bin_count(c)), c);
        assert_eq!(incremented_bin_count(decremented_bin_count(c + 1)), c + 1);
    }
}

#[test]
fn incoming_links_are_listed_in_order() {
    assert_eq!(available_links(&vec![]), vec!["No incoming links!".to_string()]);
    let sources = vec![
        LinkSource::Random { name: Some("mu".to_string()), dist_type: "Normal".to_string() },
        LinkSource::Random { name: None, dist_type: "Gamma".to_string() },
        LinkSource::Scalar { column: Some("height".to_string()), label: "1.00".to_string() },
        LinkSource::Scalar { column: None, label: "2.50".to_string() },
        LinkSource::Compute { operation: Operation::Sum },
    ];
    assert_eq!(
        available_links(&sources),
        vec![
            "1: mu ~ Normal".to_string(),
            "2: var ~ Gamma".to_string(),
            "3: scalar: height".to_string(),
            "4: scalar: 2.50".to_string(),
            "5: operation: \u{2211}".to_string(),
        ]
    );
    assert_eq!(random_node_description(Some("x"), "Beta"), "x ~ Beta");
    assert_eq!(operation_label(Operation::Power), "^");
    assert_eq!(operation_label(Operation::Logarithm), "log");
}

#[test]
fn operation_menu_and_symbols() {
    assert_eq!(menu_operation("Exp"), Operation::Exponential);
    assert_eq!(menu_operation("Product"), Operation::Product);
    assert_eq!(menu_operation("Log"), Operation::Logarithm);
    assert_eq!(menu_operation("Modulo"), Operation::Add);
    assert_eq!(operation_symbol(Operation::Product), "\u{3c0}");
    assert_eq!(operation_symbol(Operation::Sum), "\u{2211}");
    assert_eq!(operation_symbol(Operation::Divide), "/");
    assert_eq!(operation_label(Operation::Product), "prod");
}

#[test]
fn a_node_is_observed_when_some_plate_maps_it_to_a_column() {
    assert!(!node_is_observed(&vec![]));
    assert!(!node_is_observed(&vec![None, Some("unobserved".to_string())]));
    assert!(node_is_observed(&vec![Some("unobserved".to_string()), None, Some("y".to_string())]));
}

#[test]
fn picking_a_parameter_links_it() {
    let mut params = vec![None, Some(4)];
    assert!(pick_param(&mut params, 1, 9));
    assert_eq!(params, vec![None, Some(9)]);
    assert!(pick_param(&mut params, 0, 3));
    assert_eq!(params, vec![Some(3), Some(9)]);
    assert!(!pick_param(&mut params, 2, 5));
    assert_eq!(params, vec![Some(3), Some(9)]);
}

#[test]
fn only_edits_that_change_the_model_discard_it() {
    assert!(!invalidate_compilation_on_graph_change(false, true, true, true, true));
    assert!(invalidate_compilation_on_graph_change(true, true, false, false, false));
    assert!(invalidate_compilation_on_graph_change(true, false, false, false, true));
    assert!(invalidate_compilation_on_graph_change(true, false, true, true, false));
    assert!(!invalidate_compilation_on_graph_change(true, false, true, false, false));
    assert!(!invalidate_compilation_on_graph_change(true, false, false, true, false));
}

#[test]
fn plate_sizes_are_read_exactly_as_typed() {
    assert_eq!(typed_plate_size("12"), Some(12));
    assert_eq!(typed_plate_size("+3"), Some(3));
    assert_eq!(typed_plate_size("0"), Some(0));
    assert_eq!(typed_plate_size(" 4"), None);
    assert_eq!(typed_plate_size("4 "), None);
    assert_eq!(typed_plate_size(""), None);
    assert_eq!(typed_plate_size("-1"), None);
    assert_eq!(typed_plate_size("2x"), None);
}

#[test]
fn a_new_dataset_forgets_every_column() {
    let mut mapping: HashMap<u64, String> = HashMap::new();
    mapping.insert(3, "height".to_string());
    mapping.insert(9, "unobserved".to_string());
    mapping.insert(12, "weight".to_string());
    reset_mapping(&mut mapping);
    assert_eq!(mapping.len(), 3);
    for node in [3u64, 9, 12] {
        assert_eq!(mapping[&node], "unobserved");
    }
    let mut empty: HashMap<u64, String> = HashMap::new();
    reset_mapping(&mut empty);
    assert!(empty.is_empty());
}

#[test]
fn picking_a_column_maps_only_plate_members() {
    let mut mapping: HashMap<u64, String> = HashMap::new();
    mapping.insert(3, "unobserved".to_string());
    assert!(select_plate_mapping(&mut mapping, 3, "height".to_string()));
    assert_eq!(mapping[&3], "height");
    assert!(!select_plate_mapping(&mut mapping, 4, "weight".to_string()));
    assert_eq!(mapping.len(), 1);
    assert!(!mapping.contains_key(&4));
}

#[test]
fn node_type_menu_entries() {
    assert_eq!(node_type_named("Compute"), NodeType::Compute);
    assert_eq!(node_type_named("Scalar"), NodeType::Scalar);
    assert_eq!(node_type_named("Random"), NodeType::Random);
    assert_eq!(node_type_named("Plate"), NodeType::Random);
}

#[test]
fn the_column_menu_lists_unobserved_then_sorted_columns() {
    let columns: Vec<String> = ["weight", "age", "Height", "\u{e4}ge", "ag"].iter().map(|c| c.to_string()).collect();
    assert_eq!(
        plate_mapping_menu(&columns),
        vec!["unobserved", "Height", "ag", "age", "weight", "\u{e4}ge"].iter().map(|c| c.to_string()).collect::<Vec<_>>()
    );
    assert_eq!(plate_mapping_menu(&vec![]), vec!["unobserved".to_string()]);
    let mut expected = columns.clone();
    expected.sort();
    assert_eq!(plate_mapping_menu(&columns)[1..].to_vec(), expected);
}

#[test]
fn loading_or_clearing_asks_first() {
    assert_eq!(
        preset_confirmation(&PresetRequest::Load { title: Some("Eight schools".to_string()) }),
        ("Replace graph with Eight schools?".to_string(), "Load")
    );
    assert_eq!(
        preset_confirmation(&PresetRequest::Load { title: None }),
        ("Replace graph with this preset?".to_string(), "Load")
    );
    assert_eq!(preset_confirmation(&PresetRequest::Clear), ("Clear the current graph?".to_string(), "Clear"));
}

#[test]
fn the_canvas_cursor() {
    assert_eq!(update_graph_cursor(true, true, true), GraphCursorState::FinishLink);
    assert_eq!(update_graph_cursor(false, false, true), GraphCursorState::ShiftHeld);
    assert_eq!(update_graph_cursor(false, true, true), GraphCursorState::Default);
    assert_eq!(update_graph_cursor(false, false, false), GraphCursorState::Default);
}

#[test]
fn dragging_within_a_plate_compiles_to_the_same_plates() {
    let drafts = vec![scalar(1, 0.0), scalar(2, 1.0)];
    let plates = vec![
        EditorPlate { id: 10, bounds: bounds((0.0, 0.0), (100.0, 100.0)), n: 2, data: vec![column("y", &[1.0, 2.0])], mapping: vec![] },
        EditorPlate { id: 11, bounds: bounds((10.0, 10.0), (40.0, 40.0)), n: 1, data: vec![column("z", &[3.0])], mapping: vec![] },
    ];
    let before = vec![(1, point(5.0, 5.0)), (2, point(20.0, 20.0))];
    let after = vec![(1, point(80.0, 90.0)), (2, point(35.0, 12.0))];
    let graph = compile_ir(&drafts, &plates, &before).unwrap();
    let current: Vec<(u32, PlateBounds)> = plates.iter().map(|p| (p.id, p.bounds)).collect();
    assert!(!node_plate_membership_changed(&graph, &current, &after));
    let moved = compile_ir(&drafts, &plates, &after).unwrap();
    for id in [10u32, 11] {
        assert_eq!(graph.plates[&id].nodes, moved.plates[&id].nodes);
        assert_eq!(graph.plates[&id].plates, moved.plates[&id].plates);
    }
    assert_eq!(graph.plates[&10].nodes, vec![1]);
    assert_eq!(graph.plates[&11].nodes, vec![2]);
}

#[test]
fn csv_text_becomes_columns_by_header_position() {
    let (n, columns) = parse_dataset(b"x,y\n1,2\n3.5,4\n").unwrap();
    assert_eq!(n, 2);
    assert_eq!(
        columns,
        vec![
            ("x".to_string(), vec!["1".to_string(), "3.5".to_string()]),
            ("y".to_string(), vec!["2".to_string(), "4".to_string()]),
        ]
    );
    let (n, columns) = parse_dataset(b"only\n").unwrap();
    assert_eq!(n, 0);
    assert_eq!(columns, vec![("only".to_string(), vec![])]);
    assert!(matches!(parse_dataset(b"a,b\n1,2,3\n"), Err(DatasetError::Csv(_))));
}

#[test]
fn records_longer_than_the_header_are_refused() {
    let headers = vec!["a".to_string()];
    let records = vec![vec!["1".to_string()], vec!["2".to_string(), "3".to_string()]];
    assert_eq!(dataset_fields(&headers, &records), Err("record has more fields than the header".to_string()));
    let short = vec![vec!["1".to_string()], vec![]];
    assert_eq!(
        dataset_fields(&vec!["a".to_string(), "b".to_string()], &short),
        Ok((2, vec![("a".to_string(), vec!["1".to_string()]), ("b".to_string(), vec![])]))
    );
}

fn session(job: Option<JobControl>) -> CompilationSession {
    let mut selections = SampleSelections::new();
    selections.add(SelectionContext { context_plate_ids: vec![], context_instance_paths: vec![vec![]], draws_by_instance: vec![] });
    CompilationSession {
        compiled: true,
        results: true,
        status: true,
        job,
        inference_controls_enabled: true,
        posterior_sample_enabled: true,
        histogram_open: true,
        selections,
    }
}

#[test]
fn an_edit_drops_the_model_but_keeps_the_selections() {
    let mut s = session(Some(JobControl { discard_result: false, cancel_requested: false }));
    assert!(s.on_graph_change(true, false, false, false));
    assert!(!s.compiled && !s.results && !s.status);
    assert_eq!(s.job, Some(JobControl { discard_result: true, cancel_requested: true }));
    assert!(!s.inference_controls_enabled && !s.posterior_sample_enabled && !s.histogram_open);
    assert_eq!(s.selections.entries().len(), 1);

    let mut moved = session(None);
    assert!(!moved.on_graph_change(false, true, false, false));
    assert!(moved.compiled && moved.results && moved.histogram_open);
    assert_eq!(moved.job, None);

    let mut idle = session(None);
    idle.compiled = false;
    assert!(!idle.on_graph_change(true, true, true, true));
    assert!(idle.results);
}

#[test]
fn histogram_headings_follow_the_run() {
    assert_eq!(histogram_heading(None, "mu", 10), "Posterior samples - mu");
    assert_eq!(histogram_heading(Some((InferenceResultState::Complete, 10)), "mu", 10), "Posterior samples - mu");
    assert_eq!(histogram_heading(Some((InferenceResultState::Running, 50)), "mu", 12), "Live posterior samples - mu - 12 / 50 draws");
    assert_eq!(
        histogram_heading(Some((InferenceResultState::Cancelled, 50)), "mu", 7),
        "Partial posterior - mu - cancelled at 7 / 50 draws"
    );
    assert_eq!(histogram_heading(Some((InferenceResultState::Failed, 50)), "x", 3), "Partial posterior - x - failed at 3 / 50 draws");
}

#[test]
fn the_histogram_panel_reports_why_it_cannot_open() {
    assert_eq!(
        histogram_instances(4, None, Ok(vec![])).unwrap_err(),
        "Could not find plate metadata for node 4."
    );
    assert_eq!(histogram_instances(4, Some(vec![]), Ok(vec![])).unwrap_err(), "Node 4 has no posterior values.");
    assert_eq!(
        histogram_instances(4, Some(vec![]), Err("boom".to_string())).unwrap_err(),
        "Could not display node 4: boom"
    );
    let instances = vec![NodeInstanceSamples { indices: vec![], samples: vec![PosteriorSample { draw_index: 0, value: 1.0f64.to_bits() }] }];
    let (path, shown) = histogram_instances(4, Some(vec![2]), Ok(instances)).unwrap();
    assert_eq!(path, vec![2]);
    assert_eq!(shown.len(), 1);
}
