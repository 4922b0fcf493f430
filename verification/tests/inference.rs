use bayesian_visualizer::graph_ir::{GraphIR, NodeIR, ParamIR};
use bayesian_visualizer::inference::{is_finite_bits, InferenceResult};
use bayesian_visualizer::inference_run::{InferenceRun, RunStep};
use bayesian_visualizer::model_values::ModelResult;
use std::collections::HashMap;

fn scalar(x: f64) -> ModelResult {
    ModelResult::Scalar(x.to_bits())
}

fn simple_random_graph() -> GraphIR {
    let mut graph = GraphIR::new();
    graph.nodes.insert(1, NodeIR::Scalar { id: 1, value: 0.0f64.to_bits() });
    graph.nodes.insert(2, NodeIR::Scalar { id: 2, value: 1.0f64.to_bits() });
    graph.nodes.insert(
        3,
        NodeIR::Random {
            id: 3,
            label: Some("theta".to_string()),
            dist_type: "Normal".to_string(),
            params: vec![ParamIR { from_node: 1, param_name: None }, ParamIR { from_node: 2, param_name: None }],
        },
    );
    graph
}

fn draw_values(x: f64) -> HashMap<u32, ModelResult> {
    HashMap::from([(1, scalar(0.0)), (2, scalar(1.0)), (3, scalar(x))])
}

#[test]
fn samples_preserve_plate_rows_and_draw_indices() {
    let result = InferenceResult {
        seed: 1,
        n_samples: 3,
        n_warmup: 0,
        samples_by_node: HashMap::from([(
            7,
            vec![
                ModelResult::Plate(vec![scalar(1.0), scalar(10.0)]),
                ModelResult::Plate(vec![scalar(2.0), scalar(20.0)]),
                ModelResult::Plate(vec![scalar(3.0), scalar(30.0)]),
            ],
        )]),
        traces: Vec::new(),
    };

    let instances = result.samples_for_node(7).unwrap();
    assert_eq!(instances.len(), 2);
    assert_eq!(instances[0].indices, vec![0]);
    assert_eq!(
        instances[0].samples.iter().map(|sample| f64::from_bits(sample.value)).collect::<Vec<_>>(),
        vec![1.0, 2.0, 3.0]
    );
    assert_eq!(instances[0].samples[1].draw_index, 1);
    assert_eq!(f64::from_bits(instances[0].samples[1].value), 2.0);
    assert_eq!(instances[1].indices, vec![1]);
    assert_eq!(f64::from_bits(instances[1].samples[1].value), 20.0);
}

#[test]
fn samples_reject_missing_nodes_and_non_finite_values() {
    let result = InferenceResult {
        seed: 1,
        n_samples: 1,
        n_warmup: 0,
        samples_by_node: HashMap::from([(7, vec![ModelResult::Plate(vec![scalar(1.0), scalar(f64::NAN)])])]),
        traces: Vec::new(),
    };
    assert_eq!(result.samples_for_node(8).unwrap_err(), "inference results do not contain node 8");
    assert_eq!(result.samples_for_node(7).unwrap_err(), "node instance [1] contains non-finite values");
    assert!(is_finite_bits(1.5f64.to_bits()));
    assert!(!is_finite_bits(f64::INFINITY.to_bits()));
}

#[test]
fn nested_instances_come_in_index_order() {
    let draw = ModelResult::Plate(vec![
        ModelResult::Plate(vec![scalar(1.0), scalar(2.0)]),
        ModelResult::Plate(vec![scalar(3.0)]),
    ]);
    let result = InferenceResult {
        seed: 0,
        n_samples: 1,
        n_warmup: 0,
        samples_by_node: HashMap::from([(5, vec![draw])]),
        traces: Vec::new(),
    };
    let instances = result.samples_for_node(5).unwrap();
    let indices: Vec<Vec<usize>> = instances.iter().map(|i| i.indices.clone()).collect();
    assert_eq!(indices, vec![vec![0, 0], vec![0, 1], vec![1, 0]]);
}

/// Drives a run the way an inference loop does, with draws that always succeed.
fn drive(run: &mut InferenceRun, cancel_after_warmup: Option<usize>, cancel_after_draw: Option<usize>) -> usize {
    let mut published = 0;
    let mut cancel = false;
    loop {
        match run.next_step(cancel) {
            RunStep::Warmup => {
                let completed = run.warmup_done();
                if Some(completed) == cancel_after_warmup {
                    cancel = true;
                }
            }
            RunStep::Sample { draw_index } => {
                run.record_draw(draw_index, Ok(draw_values(draw_index as f64)), fugue::Trace::default()).unwrap();
                published += 1;
                if Some(draw_index) == cancel_after_draw {
                    cancel = true;
                }
            }
            RunStep::Done => return published,
        }
    }
}

#[test]
fn inference_retains_every_nodes_complete_draws() {
    let graph = simple_random_graph();
    let mut run = InferenceRun::start(42, 8, 2).unwrap();
    drive(&mut run, None, None);
    let result = run.finish(&graph).unwrap().result;

    assert_eq!(result.traces.len(), 8);
    assert_eq!(result.samples_by_node[&1].len(), 8);
    assert_eq!(result.samples_by_node[&2].len(), 8);
    assert_eq!(result.samples_by_node[&3].len(), 8);
    assert_eq!(result.samples_for_node(3).unwrap()[0].samples.len(), 8);
}

#[test]
fn controlled_inference_cancels_during_warmup_without_retaining_draws() {
    let graph = simple_random_graph();
    let mut run = InferenceRun::start(42, 8, 5).unwrap();
    let published = drive(&mut run, Some(2), None);
    let outcome = run.finish(&graph).unwrap();

    assert!(outcome.cancelled);
    assert_eq!(outcome.result.n_warmup, 2);
    assert_eq!(outcome.result.n_samples, 0);
    assert_eq!(published, 0);
}

#[test]
fn controlled_inference_keeps_draws_retained_before_cancellation() {
    let graph = simple_random_graph();
    let mut run = InferenceRun::start(42, 8, 2).unwrap();
    let published = drive(&mut run, None, Some(2));
    let outcome = run.finish(&graph).unwrap();

    assert!(outcome.cancelled);
    assert_eq!(outcome.result.n_warmup, 2);
    assert_eq!(outcome.result.n_samples, 3);
    assert_eq!(outcome.result.traces.len(), 3);
    assert_eq!(outcome.result.samples_by_node[&3].len(), 3);
    assert_eq!(published, 3);
}

#[test]
fn inference_run_reports_zero_samples_failed_draws_and_missing_nodes() {
    assert_eq!(InferenceRun::start(1, 0, 3).err().unwrap(), "number of samples must be greater than zero");

    let mut run = InferenceRun::start(1, 2, 0).unwrap();
    assert_eq!(run.next_step(false), RunStep::Sample { draw_index: 0 });
    let error = run
        .record_draw(0, Err("bad sigma".to_string()), fugue::Trace::default())
        .unwrap_err();
    assert_eq!(error, "inference execution 1 failed: bad sigma");

    let graph = simple_random_graph();
    let mut partial = InferenceRun::start(1, 1, 0).unwrap();
    assert_eq!(partial.next_step(false), RunStep::Sample { draw_index: 0 });
    partial
        .record_draw(0, Ok(HashMap::from([(1, scalar(0.0))])), fugue::Trace::default())
        .unwrap();
    assert_eq!(partial.next_step(false), RunStep::Done);
    assert_eq!(partial.finish(&graph).err().unwrap(), "inference retained 0 of 1 draws for node 2");
}

#[test]
fn a_cancelled_run_keeps_one_value_per_retained_draw_for_every_node() {
    let graph = simple_random_graph();
    let mut run = InferenceRun::start(7, 8, 1).unwrap();
    drive(&mut run, None, Some(1));
    let outcome = run.finish(&graph).unwrap();
    assert!(outcome.cancelled);
    let result = outcome.result;
    assert_eq!(result.n_samples, 2);
    assert_eq!(result.traces.len(), 2);
    for values in result.samples_by_node.values() {
        assert_eq!(values.len(), 2);
    }
}
