use bayesian_visualizer::inference::{NodeInstanceSamples, PosteriorSample};
use bayesian_visualizer::joint_samples::{build_joint_samples, joint_selection, JointSample};
use bayesian_visualizer::linked_samples::{
    linked_samples, linked_samples_for_selections, unweighted_samples, WeightedSample,
};
use bayesian_visualizer::posterior_views::{
    displayed_instance_samples, format_instance_label, histogram_samples, pool_instance_samples,
    sample_is_selected, selected_instances, selection_weights, selections_point_count, shared_plate_positions, HistogramSample, HistogramScope, InstanceDraws,
    SelectionContext, Weight,
};
use bayesian_visualizer::sample_selections::{update_histogram_selection_controls, SampleSelections};
use bayesian_visualizer::selection_groups::group_selections;
use std::collections::{HashMap, HashSet};

fn sample(draw_index: usize, value: f64) -> PosteriorSample {
    PosteriorSample { draw_index, value: value.to_bits() }
}

fn instance(indices: Vec<usize>, samples: Vec<PosteriorSample>) -> NodeInstanceSamples {
    NodeInstanceSamples { indices, samples }
}

fn effective_count(samples: &[WeightedSample]) -> f64 {
    samples.iter().map(|s| s.weight.num as f64 / s.weight.den as f64).sum()
}

fn weight_value(w: Weight) -> f64 {
    w.num as f64 / w.den as f64
}

fn as_map(selected: &[InstanceDraws]) -> HashMap<Vec<usize>, HashSet<usize>> {
    selected.iter().map(|e| (e.path.clone(), e.draws.iter().copied().collect())).collect()
}

fn selection(plate_ids: Vec<u32>, paths: Vec<Vec<usize>>, draws: Vec<(Vec<usize>, Vec<usize>)>) -> SelectionContext {
    SelectionContext {
        context_plate_ids: plate_ids,
        context_instance_paths: paths,
        draws_by_instance: draws.into_iter().map(|(path, draws)| InstanceDraws { path, draws }).collect(),
    }
}

#[test]
fn pooling_preserves_every_plate_point_and_its_draw() {
    let instances = vec![
        instance(vec![0], vec![sample(0, 1.0), sample(1, 2.0)]),
        instance(vec![1], vec![sample(0, 10.0), sample(1, 20.0)]),
    ];

    assert_eq!(
        pool_instance_samples(&instances),
        vec![sample(0, 1.0), sample(1, 2.0), sample(0, 10.0), sample(1, 20.0)]
    );
}

#[test]
fn brushing_retains_the_plate_instance_for_each_draw() {
    let samples = vec![
        HistogramSample { instance: 0, draw_index: 0, value: 0.25f64.to_bits() },
        HistogramSample { instance: 1, draw_index: 0, value: 1.0f64.to_bits() },
        HistogramSample { instance: 1, draw_index: 1, value: 0.5f64.to_bits() },
    ];

    let selected = selected_instances(&samples, &vec![vec![0], vec![1]], 0.0f64.to_bits(), 0.5f64.to_bits());
    assert_eq!(
        as_map(&selected),
        HashMap::from([(vec![0], HashSet::from([0])), (vec![1], HashSet::from([1]))])
    );
}

#[test]
fn linked_plate_histograms_match_rows_before_draws() {
    let instances = vec![
        instance(vec![0], vec![sample(0, 10.0), sample(1, 11.0)]),
        instance(vec![1], vec![sample(0, 20.0), sample(1, 21.0)]),
    ];
    let selection = selection(vec![10], vec![vec![0], vec![1]], vec![(vec![0], vec![0, 1])]);

    let linked = linked_samples(&instances, &selection, &vec![10]);

    assert_eq!(linked, unweighted_samples(&instances[0].samples));

    let root = linked_samples(&vec![instance(Vec::new(), vec![sample(0, 30.0), sample(1, 31.0)])], &selection, &vec![]);
    assert_eq!(effective_count(&root), 1.0);
    assert!(root.iter().all(|sample| weight_value(sample.weight) == 0.5));
}

#[test]
fn additive_selections_union_overlapping_draws() {
    let instances = vec![instance(Vec::new(), vec![sample(0, 1.0), sample(1, 2.0), sample(2, 3.0)])];
    let make_selection = |draws: Vec<usize>| selection(Vec::new(), vec![Vec::new()], vec![(Vec::new(), draws)]);
    let selections = vec![make_selection(vec![0, 1]), make_selection(vec![1, 2])];

    let linked = linked_samples_for_selections(&instances, &selections, &vec![]);

    assert_eq!(effective_count(&linked), 3.0);
    assert_eq!(
        linked.iter().map(|sample| f64::from_bits(sample.value)).collect::<Vec<_>>(),
        vec![1.0, 2.0, 3.0]
    );
}

#[test]
fn additive_plate_selections_combine_distinct_instance_weight() {
    let target = vec![instance(Vec::new(), vec![sample(0, 9.0)])];
    let make_selection = |path: Vec<usize>| selection(vec![10], vec![vec![0], vec![1]], vec![(path, vec![0])]);
    let selections = vec![make_selection(vec![0]), make_selection(vec![1])];

    let linked = linked_samples_for_selections(&target, &selections, &vec![]);

    assert_eq!(effective_count(&linked), 1.0);
}

#[test]
fn joint_samples_pair_matching_draws_and_plate_rows() {
    let x = vec![
        instance(vec![0], vec![sample(0, 1.0), sample(1, 2.0)]),
        instance(vec![1], vec![sample(0, 10.0)]),
    ];
    let y = vec![
        instance(vec![0], vec![sample(0, 3.0), sample(1, 4.0)]),
        instance(vec![1], vec![sample(0, 30.0)]),
    ];

    let (points, plate_ids, paths) = build_joint_samples(&x, &vec![7], &y, &vec![7]);

    assert_eq!(plate_ids, vec![7]);
    assert_eq!(paths, vec![vec![0], vec![1]]);
    assert_eq!(points.len(), 3);
    assert!(points.iter().any(|point| f64::from_bits(point.x) == 10.0 && f64::from_bits(point.y) == 30.0));
}

#[test]
fn joint_samples_cross_unshared_plates_and_take_the_last_repeated_draw() {
    let x = vec![instance(vec![0], vec![sample(0, 1.0), sample(1, 2.0)])];
    let y = vec![
        instance(vec![5], vec![sample(0, 3.0), sample(0, 4.0)]),
        instance(vec![6], vec![sample(1, 5.0)]),
    ];

    let (points, plate_ids, paths) = build_joint_samples(&x, &vec![7], &y, &vec![8]);

    assert_eq!(plate_ids, vec![7, 8]);
    assert_eq!(paths, vec![vec![0, 5], vec![0, 6]]);
    assert_eq!(
        points,
        vec![
            JointSample { context_instance: 0, draw_index: 0, x: 1.0f64.to_bits(), y: 4.0f64.to_bits() },
            JointSample { context_instance: 1, draw_index: 1, x: 2.0f64.to_bits(), y: 5.0f64.to_bits() },
        ]
    );
}

#[test]
fn histogram_samples_tag_each_value_with_its_instance() {
    let instances = vec![instance(vec![0], vec![sample(3, 1.0)]), instance(vec![1], vec![sample(4, 2.0)])];
    let (samples, paths) = histogram_samples(&instances);
    assert_eq!(
        samples,
        vec![
            HistogramSample { instance: 0, draw_index: 3, value: 1.0f64.to_bits() },
            HistogramSample { instance: 1, draw_index: 4, value: 2.0f64.to_bits() },
        ]
    );
    assert_eq!(paths, vec![vec![0], vec![1]]);
}

#[test]
fn a_single_instance_is_shown_as_it_is_and_several_are_pooled() {
    let one = vec![instance(vec![2], vec![sample(0, 1.0)])];
    let (shown, scope) = displayed_instance_samples(&one);
    assert_eq!(shown, instance(vec![2], vec![sample(0, 1.0)]));
    assert_eq!(scope, HistogramScope::Instance(vec![2]));

    let two = vec![instance(vec![0], vec![sample(0, 1.0)]), instance(vec![1], vec![sample(0, 2.0)])];
    let (shown, scope) = displayed_instance_samples(&two);
    assert_eq!(shown, instance(Vec::new(), vec![sample(0, 1.0), sample(0, 2.0)]));
    assert_eq!(scope, HistogramScope::Pooled { instance_count: 2 });
}

#[test]
fn shared_plates_are_paired_by_position() {
    assert_eq!(shared_plate_positions(&vec![3, 4, 5], &vec![5, 9, 3]), vec![(0, 2), (2, 0)]);
    assert_eq!(shared_plate_positions(&vec![1], &vec![2]), Vec::<(usize, usize)>::new());
}

#[test]
fn instance_labels_list_their_indices() {
    assert_eq!(format_instance_label("theta", &vec![0, 12]), "theta[0][12]");
    assert_eq!(format_instance_label("mu", &vec![]), "mu");
}

#[test]
fn brushing_includes_both_ends_and_negative_values() {
    let samples = vec![
        HistogramSample { instance: 0, draw_index: 0, value: (-1.0f64).to_bits() },
        HistogramSample { instance: 0, draw_index: 1, value: (-2.0f64).to_bits() },
        HistogramSample { instance: 0, draw_index: 2, value: 1.0f64.to_bits() },
        HistogramSample { instance: 0, draw_index: 1, value: (-1.5f64).to_bits() },
    ];
    let selected = selected_instances(&samples, &vec![vec![]], (-1.5f64).to_bits(), 1.0f64.to_bits());
    assert_eq!(as_map(&selected), HashMap::from([(vec![], HashSet::from([0, 1, 2]))]));
    assert_eq!(selected[0].draws, vec![0, 2, 1]);
}

#[test]
fn a_sample_is_selected_through_shared_plates() {
    let selections = vec![selection(vec![10, 11], vec![vec![0, 0], vec![0, 1], vec![1, 0]], vec![(vec![0, 1], vec![4])])];
    assert!(sample_is_selected(&vec![11], &vec![1], 4, Some(&selections)));
    assert!(!sample_is_selected(&vec![11], &vec![0], 4, Some(&selections)));
    assert!(!sample_is_selected(&vec![11], &vec![1], 5, Some(&selections)));
    assert!(!sample_is_selected(&vec![11], &vec![1], 4, None));
}

#[test]
fn selections_of_one_context_are_joined() {
    let selections = vec![
        selection(vec![10], vec![vec![0], vec![1]], vec![(vec![0], vec![1])]),
        selection(vec![11], vec![vec![0]], vec![(vec![0], vec![2])]),
        selection(vec![10], vec![vec![0], vec![1]], vec![(vec![0], vec![3]), (vec![1], vec![1])]),
    ];
    let groups = group_selections(&selections);
    assert_eq!(groups.len(), 2);
    assert_eq!(groups[0].context_plate_ids, vec![10]);
    assert_eq!(
        as_map(&groups[0].draws_by_instance),
        HashMap::from([(vec![0], HashSet::from([1, 3])), (vec![1], HashSet::from([1]))])
    );
    assert_eq!(groups[1].context_plate_ids, vec![11]);
    assert_eq!(as_map(&groups[1].draws_by_instance), HashMap::from([(vec![0], HashSet::from([2]))]));
}

#[test]
fn the_heaviest_context_weight_wins() {
    let target = vec![instance(Vec::new(), vec![sample(0, 9.0), sample(1, 8.0)])];
    let selections = vec![
        selection(vec![10], vec![vec![0], vec![1], vec![2]], vec![(vec![0], vec![0])]),
        selection(vec![11], vec![vec![0], vec![1]], vec![(vec![1], vec![0, 1])]),
    ];
    let linked = linked_samples_for_selections(&target, &selections, &vec![]);
    assert_eq!(linked.len(), 2);
    assert_eq!(weight_value(linked[0].weight), 0.5);
    assert_eq!(weight_value(linked[1].weight), 0.5);
    assert_eq!(f64::from_bits(linked[1].value), 8.0);
}

#[test]
fn selection_weights_share_a_draw_among_matching_context_rows() {
    let instances = vec![
        instance(vec![0], vec![sample(0, 10.0), sample(1, 11.0)]),
        instance(vec![1], vec![sample(0, 20.0)]),
    ];
    let selection = selection(vec![10, 11], vec![vec![0, 0], vec![0, 1], vec![1, 0]], vec![(vec![0, 1], vec![1]), (vec![1, 0], vec![0])]);

    let weights = selection_weights(&instances, &selection, &vec![10]);

    let seen: Vec<(Vec<usize>, usize, f64)> =
        weights.iter().map(|w| (w.indices.clone(), w.draw_index, weight_value(w.weight))).collect();
    assert_eq!(seen, vec![(vec![0], 1, 0.5), (vec![1], 0, 1.0)]);
}

#[test]
fn lassoed_points_select_draws_of_their_context_rows() {
    let point = |context_instance: usize, draw_index: usize| JointSample { context_instance, draw_index, x: 0, y: 0 };
    let points = vec![point(0, 0), point(1, 0), point(0, 1), point(0, 0), point(1, 2)];
    let inside = vec![true, false, true, true, true];
    let paths = vec![vec![0, 5], vec![0, 6]];

    let selected = joint_selection(&points, &inside, &paths);

    assert_eq!(
        as_map(&selected),
        HashMap::from([(vec![0, 5], HashSet::from([0, 1])), (vec![0, 6], HashSet::from([2]))])
    );
    let selection = SelectionContext { context_plate_ids: vec![7, 8], context_instance_paths: paths, draws_by_instance: selected };
    assert_eq!(selection.point_count(), 3);
    assert_eq!(selections_point_count(&vec![selection]), 3);
    assert!(joint_selection(&points, &vec![false; 5], &vec![vec![0, 5], vec![0, 6]]).is_empty());
}

#[test]
fn selections_are_appended_and_only_cleared_all_at_once() {
    let mut selections = SampleSelections::new();
    assert!(selections.is_empty());
    assert_eq!(selections.point_count(), 0);
    selections.add(selection(vec![7], vec![vec![0], vec![1]], vec![(vec![0], vec![1, 2]), (vec![1], vec![2])]));
    selections.add(selection(vec![], vec![vec![]], vec![(vec![], vec![0, 3, 4])]));
    assert!(!selections.is_empty());
    assert_eq!(selections.entries().len(), 2);
    assert_eq!(selections.entries()[0].context_plate_ids, vec![7]);
    assert_eq!(selections.entries()[1].draws_by_instance[0].draws, vec![0, 3, 4]);
    assert_eq!(selections.point_count(), 6);
    selections.clear();
    assert!(selections.is_empty());
    assert_eq!(selections.point_count(), 0);
}

#[test]
fn the_selection_status_line() {
    let mut selections = SampleSelections::new();
    assert_eq!(update_histogram_selection_controls(&selections, "0", false), None);
    selections.add(selection(vec![], vec![vec![]], vec![(vec![], vec![0, 3])]));
    assert_eq!(update_histogram_selection_controls(&selections, "2", false), Some("2 samples selected in 1 selection".to_string()));
    selections.add(selection(vec![], vec![vec![]], vec![(vec![], vec![1])]));
    assert_eq!(update_histogram_selection_controls(&selections, "2.5", true), Some("2.5 samples displayed in 2 selections".to_string()));
}
