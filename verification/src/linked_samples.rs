//! The samples of a target node that the selections made in other views pick out,
//! each weighted by how much of its context was selected.
use crate::inference::{NodeInstanceSamples, PosteriorSample};
use crate::posterior_views::{
    lemma_prefix_count_le, lemma_prefix_count_positive, lemma_selected_has_entry, prefix_count, selected_count,
    covered, draw_weight, instances_shaped, projectable, project_context_path, projection, selection_covered,
    selection_ok, shared_plate_positions, shared_with, weight_for, weights_defined, SelectionContext, Weight,
};
use crate::selection_groups::{
    group_has_path, group_selections, groups_ok, groups_union, groups_valid, has_path, paths_eq, same_context,
};
use vstd::prelude::*;

verus! {

/// A posterior value, by its bit pattern, with the weight it is counted with.
#[derive(Clone, Copy, Debug, PartialEq, Eq, Structural)]
pub struct WeightedSample {
    pub value: u64,
    pub weight: Weight,
}

/// The weight the selections of one context give draw `d` of the target instance
/// at `indices`, if they select it at all.
pub open spec fn group_weight(group: SelectionContext, target: Seq<u32>, indices: Seq<usize>, d: usize) -> Option<Weight> {
    weight_for(group.context_instance_paths@, group.draws_by_instance@, shared_with(group, target),
        projection(indices, shared_with(group, target), false), d)
}

/// `a` is a larger fraction than `b`.
pub open spec fn heavier(a: Weight, b: Weight) -> bool {
    a.num * b.den > b.num * a.den
}

/// The largest weight the first `end` groups give draw `d` of the instance at
/// `indices`; of equal weights the first is kept.
pub open spec fn best_weight(groups: Seq<SelectionContext>, target: Seq<u32>, indices: Seq<usize>, d: usize, end: int) -> Option<Weight>
    decreases end,
{
    if end <= 0 {
        None
    } else {
        let before = best_weight(groups, target, indices, d, end - 1);
        match group_weight(groups[end - 1], target, indices, d) {
            None => before,
            Some(w) => match before {
                None => Some(w),
                Some(c) => if heavier(w, c) { Some(w) } else { Some(c) },
            },
        }
    }
}

/// The weighted samples among the first `end` samples of the instance at `indices`.
pub open spec fn weighted_instance(groups: Seq<SelectionContext>, target: Seq<u32>, indices: Seq<usize>, samples: Seq<PosteriorSample>, end: int)
    -> Seq<WeightedSample>
    decreases end,
{
    if end <= 0 {
        Seq::empty()
    } else {
        let before = weighted_instance(groups, target, indices, samples, end - 1);
        match best_weight(groups, target, indices, samples[end - 1].draw_index, groups.len() as int) {
            Some(w) => before.push(WeightedSample { value: samples[end - 1].value, weight: w }),
            None => before,
        }
    }
}

/// The weighted samples of the first `end` instances, instance after instance.
pub open spec fn linked_view(instances: Seq<NodeInstanceSamples>, groups: Seq<SelectionContext>, target: Seq<u32>, end: int)
    -> Seq<WeightedSample>
    decreases end,
{
    if end <= 0 {
        Seq::empty()
    } else {
        linked_view(instances, groups, target, end - 1) + weighted_instance(groups, target, instances[end - 1].indices@,
            instances[end - 1].samples@, instances[end - 1].samples@.len() as int)
    }
}

/// The product of two `u64` values fits in a `u128`.
proof fn lemma_product_fits(a: u64, b: u64)
    ensures
        (a as u128) * (b as u128) <= u128::MAX,
{
    assert((a as int) * (b as int) <= (u64::MAX as int) * (u64::MAX as int)) by (nonlinear_arith);
}

/// The larger of two weights, the first on a tie.
fn heavier_of(current: Option<Weight>, w: Weight) -> (r: Option<Weight>)
    ensures
        r == (match current {
            None => Some(w),
            Some(c) => if heavier(w, c) { Some(w) } else { Some(c) },
        }),
        r matches Some(x) && (x == w || current == Some(x)) && x.num * w.den >= w.num * x.den,
        current matches Some(c) ==> (r matches Some(x) && x.num * c.den >= c.num * x.den),
{
    match current {
        None => Some(w),
        Some(c) => {
            proof {
                lemma_product_fits(w.num, c.den);
                lemma_product_fits(c.num, w.den);
            }
            let lhs: u128 = (w.num as u128) * (c.den as u128);
            let rhs: u128 = (c.num as u128) * (w.den as u128);
            if lhs > rhs { Some(w) } else { Some(c) }
        },
    }
}

/// Comparing fractions by cross products is transitive for positive denominators.
proof fn lemma_fraction_order_trans(a: int, b: int, c: int, d: int, e: int, f: int)
    requires
        b > 0,
        d > 0,
        f > 0,
        a * d >= c * b,
        c * f >= e * d,
    ensures
        a * f >= e * b,
{
    assert(a * d * f >= c * b * f) by (nonlinear_arith)
        requires a * d >= c * b, f > 0;
    assert(c * f * b >= e * d * b) by (nonlinear_arith)
        requires c * f >= e * d, b > 0;
    assert(a * f * d >= e * b * d) by (nonlinear_arith)
        requires a * d * f >= c * b * f, c * f * b >= e * d * b;
    assert(a * f >= e * b) by (nonlinear_arith)
        requires a * f * d >= e * b * d, d > 0;
}

/// `w` is at least as large a fraction as `c`, if there is a `c`.
pub open spec fn at_least(w: Weight, c: Option<Weight>) -> bool {
    match c {
        Some(c) => w.num * c.den >= c.num * w.den,
        None => true,
    }
}

/// The weight the groups of selections give a draw of a target instance is the
/// largest weight any single group (one selection context) gives it: there is
/// one exactly when some group selects the draw, it is the weight of one of
/// them, and no group gives the draw a larger fraction. So it does not depend
/// on the order in which the groups come.
pub proof fn lemma_linked_weight_is_heaviest(groups: Seq<SelectionContext>, target: Seq<u32>, indices: Seq<usize>, d: usize, end: int)
    requires
        0 <= end <= groups.len(),
        forall|g: int| 0 <= g < end ==> (#[trigger] group_weight(groups[g], target, indices, d) matches Some(c) ==> c.den > 0),
    ensures
        best_weight(groups, target, indices, d, end) is None
            <==> forall|g: int| 0 <= g < end ==> #[trigger] group_weight(groups[g], target, indices, d) is None,
        best_weight(groups, target, indices, d, end) matches Some(w) ==> {
            &&& exists|g: int| 0 <= g < end && #[trigger] group_weight(groups[g], target, indices, d) == Some(w)
            &&& forall|g: int| 0 <= g < end ==> at_least(w, #[trigger] group_weight(groups[g], target, indices, d))
        },
    decreases end,
{
    if end > 0 {
        lemma_linked_weight_is_heaviest(groups, target, indices, d, end - 1);
        let before = best_weight(groups, target, indices, d, end - 1);
        let last = end - 1;
        let r = best_weight(groups, target, indices, d, end);
        match group_weight(groups[last], target, indices, d) {
            None => {
                assert(r == before);
            },
            Some(w) => {
                assert(group_weight(groups[last], target, indices, d) == Some(w));
                match before {
                    None => {
                        assert(r == Some(w));
                        assert forall|g: int| 0 <= g < end implies at_least(w, #[trigger] group_weight(groups[g], target, indices, d)) by {
                            if g < last {
                                assert(group_weight(groups[g], target, indices, d) is None);
                            }
                        }
                    },
                    Some(c0) => {
                        let g0 = choose|g: int| 0 <= g < end - 1 && #[trigger] group_weight(groups[g], target, indices, d) == Some(c0);
                        assert(c0.den > 0);
                        assert(w.den > 0);
                        if heavier(w, c0) {
                            assert(r == Some(w));
                            assert forall|g: int| 0 <= g < end implies at_least(w, #[trigger] group_weight(groups[g], target, indices, d)) by {
                                if g < last {
                                    match group_weight(groups[g], target, indices, d) {
                                        Some(c) => {
                                            assert(at_least(c0, group_weight(groups[g], target, indices, d)));
                                            assert(c.den > 0);
                                            lemma_fraction_order_trans(w.num as int, w.den as int, c0.num as int, c0.den as int,
                                                c.num as int, c.den as int);
                                        },
                                        None => {},
                                    }
                                }
                            }
                        } else {
                            assert(r == Some(c0));
                            assert(group_weight(groups[g0], target, indices, d) == Some(c0));
                            assert(at_least(c0, group_weight(groups[last], target, indices, d)));
                        }
                    },
                }
            },
        }
    }
}

/// A context whose selected paths all match some of its instances gives a draw
/// a weight with a positive denominator, when it selects the draw at all.
pub proof fn lemma_group_weight_positive(group: SelectionContext, target: Seq<u32>, indices: Seq<usize>, d: usize)
    requires
        selection_covered(group, target),
    ensures
        group_weight(group, target, indices, d) matches Some(c) ==> c.den > 0,
{
    let shared = shared_with(group, target);
    let key = projection(indices, shared, false);
    let paths = group.context_instance_paths@;
    let entries = group.draws_by_instance@;
    if selected_count(entries, shared, key, d, entries.len() as int) > 0 {
        lemma_selected_has_entry(entries, shared, key, d, entries.len() as int);
        let a = choose|a: int| 0 <= a < entries.len() && projection(entries[a].path@, shared, true) == key
            && entries[a].draws@.contains(d);
        assert(covered(paths, shared, entries[a].path@));
        let b = choose|b: int| 0 <= b < paths.len() && projection(paths[b]@, shared, true) == projection(entries[a].path@, shared, true);
        lemma_prefix_count_positive(paths, shared, key, paths.len() as int, b);
        lemma_prefix_count_le(paths, shared, key, paths.len() as int);
        assert(group.context_instance_paths.len() == paths.len());
    }
}

/// Under selections whose selected paths match instances of their contexts, the
/// weight a target draw gets is the largest any single context gives it, one
/// of those weights, and there is one exactly when some context selects the draw.
pub proof fn lemma_linked_weight_max_over_contexts(groups: Seq<SelectionContext>, target: Seq<u32>, indices: Seq<usize>, d: usize)
    requires
        forall|g: int| 0 <= g < groups.len() ==> selection_covered(#[trigger] groups[g], target),
    ensures
        best_weight(groups, target, indices, d, groups.len() as int) is None
            <==> forall|g: int| 0 <= g < groups.len() ==> #[trigger] group_weight(groups[g], target, indices, d) is None,
        best_weight(groups, target, indices, d, groups.len() as int) matches Some(w) ==> {
            &&& exists|g: int| 0 <= g < groups.len() && #[trigger] group_weight(groups[g], target, indices, d) == Some(w)
            &&& forall|g: int| 0 <= g < groups.len() ==> at_least(w, #[trigger] group_weight(groups[g], target, indices, d))
        },
{
    assert forall|g: int| 0 <= g < groups.len() implies (#[trigger] group_weight(groups[g], target, indices, d) matches Some(c) ==> c.den > 0) by {
        lemma_group_weight_positive(groups[g], target, indices, d);
    }
    lemma_linked_weight_is_heaviest(groups, target, indices, d, groups.len() as int);
}

/// `w` is the largest weight any of the contexts gives draw `d` of the target
/// instance at `indices`, and one of those weights.
pub open spec fn heaviest_context_weight(groups: Seq<SelectionContext>, target: Seq<u32>, indices: Seq<usize>, d: usize, w: Weight) -> bool {
    &&& exists|g: int| 0 <= g < groups.len() && #[trigger] group_weight(groups[g], target, indices, d) == Some(w)
    &&& forall|g: int| 0 <= g < groups.len() ==> at_least(w, #[trigger] group_weight(groups[g], target, indices, d))
}

/// Sample `j` of the instance is weighted by its heaviest context weight.
pub open spec fn sample_weighted(groups: Seq<SelectionContext>, target: Seq<u32>, inst: NodeInstanceSamples, j: int, ws: WeightedSample) -> bool {
    0 <= j < inst.samples@.len() && ws.value == inst.samples@[j].value
        && heaviest_context_weight(groups, target, inst.indices@, inst.samples@[j].draw_index, ws.weight)
}

/// `ws` is one of the samples of the instance, weighted by the heaviest weight
/// any context gives its draw.
pub open spec fn weighted_from(groups: Seq<SelectionContext>, target: Seq<u32>, inst: NodeInstanceSamples, ws: WeightedSample) -> bool {
    exists|j: int| #[trigger] sample_weighted(groups, target, inst, j, ws)
}

/// `ws` is weighted from one of the first `end` instances.
pub open spec fn weighted_from_any(instances: Seq<NodeInstanceSamples>, groups: Seq<SelectionContext>, target: Seq<u32>, end: int, ws: WeightedSample) -> bool {
    exists|i: int| 0 <= i < end && #[trigger] weighted_from(groups, target, instances[i], ws)
}

proof fn lemma_weighted_instance_heaviest(groups: Seq<SelectionContext>, target: Seq<u32>, inst: NodeInstanceSamples, end: int)
    requires
        forall|g: int| 0 <= g < groups.len() ==> selection_covered(#[trigger] groups[g], target),
        end <= inst.samples@.len(),
    ensures
        forall|k: int| 0 <= k < weighted_instance(groups, target, inst.indices@, inst.samples@, end).len() ==>
            #[trigger] weighted_from(groups, target, inst, weighted_instance(groups, target, inst.indices@, inst.samples@, end)[k]),
    decreases end,
{
    let out = weighted_instance(groups, target, inst.indices@, inst.samples@, end);
    if end > 0 {
        lemma_weighted_instance_heaviest(groups, target, inst, end - 1);
        let before = weighted_instance(groups, target, inst.indices@, inst.samples@, end - 1);
        let d = inst.samples@[end - 1].draw_index;
        lemma_linked_weight_max_over_contexts(groups, target, inst.indices@, d);
        assert forall|k: int| 0 <= k < out.len() implies #[trigger] weighted_from(groups, target, inst, out[k]) by {
            if k < before.len() {
                assert(out[k] == before[k]);
                assert(weighted_from(groups, target, inst, before[k]));
            } else {
                assert(sample_weighted(groups, target, inst, end - 1, out[k]));
            }
        }
    }
}

/// Every weighted sample linked from other views is a sample of one of the
/// target instances, weighted by the largest weight any single selection
/// context gives its draw (and one of those weights); the order of the contexts
/// does not matter.
pub proof fn lemma_linked_view_weights(instances: Seq<NodeInstanceSamples>, groups: Seq<SelectionContext>, target: Seq<u32>, end: int)
    requires
        forall|g: int| 0 <= g < groups.len() ==> selection_covered(#[trigger] groups[g], target),
        end <= instances.len(),
    ensures
        forall|k: int| 0 <= k < linked_view(instances, groups, target, end).len() ==>
            #[trigger] weighted_from_any(instances, groups, target, end, linked_view(instances, groups, target, end)[k]),
    decreases end,
{
    let out = linked_view(instances, groups, target, end);
    if end > 0 {
        lemma_linked_view_weights(instances, groups, target, end - 1);
        let before = linked_view(instances, groups, target, end - 1);
        let inst = instances[end - 1];
        let part = weighted_instance(groups, target, inst.indices@, inst.samples@, inst.samples@.len() as int);
        lemma_weighted_instance_heaviest(groups, target, inst, inst.samples@.len() as int);
        assert forall|k: int| 0 <= k < out.len() implies #[trigger] weighted_from_any(instances, groups, target, end, out[k]) by {
            if k < before.len() {
                assert(out[k] == before[k]);
                assert(weighted_from_any(instances, groups, target, end - 1, before[k]));
                let i = choose|i: int| 0 <= i < end - 1 && #[trigger] weighted_from(groups, target, instances[i], before[k]);
                assert(weighted_from(groups, target, instances[i], out[k]));
            } else {
                assert(out[k] == part[k - before.len()]);
                assert(weighted_from(groups, target, inst, part[k - before.len()]));
                assert(weighted_from(groups, target, instances[end - 1], out[k]));
            }
        }
    }
}

/// What a selection needs for its weights to be defined.
proof fn lemma_weights_defined(sel: SelectionContext, target: Seq<u32>, shared: Seq<(usize, usize)>)
    requires
        selection_ok(sel),
        selection_covered(sel, target),
        shared == shared_with(sel, target),
        forall|k: int| 0 <= k < shared.len() ==> (#[trigger] shared[k]).0 < sel.context_plate_ids@.len(),
    ensures
        weights_defined(sel.context_instance_paths@, sel.draws_by_instance@, shared),
{
    let paths = sel.context_instance_paths@;
    let entries = sel.draws_by_instance@;
    assert forall|a: int| 0 <= a < paths.len() implies projectable((#[trigger] paths[a])@, shared, true) by {
        assert(paths[a]@.len() >= sel.context_plate_ids@.len());
    }
    assert forall|a: int| 0 <= a < entries.len() implies projectable((#[trigger] entries[a]).path@, shared, true) by {
        assert(entries[a].path@.len() >= sel.context_plate_ids@.len());
    }
}

/// The plates each group shares with the target plates.
fn group_shared_positions(groups: &Vec<SelectionContext>, target: &Vec<u32>) -> (shareds: Vec<Vec<(usize, usize)>>)
    ensures
        shareds@.len() == groups@.len(),
        forall|g: int| 0 <= g < groups@.len() ==> (#[trigger] shareds@[g])@ == shared_with(groups@[g], target@),
        forall|g: int, k: int| 0 <= g < groups@.len() && 0 <= k < shareds@[g]@.len() ==>
            (#[trigger] shareds@[g]@[k]).0 < groups@[g].context_plate_ids@.len() && shareds@[g]@[k].1 < target@.len(),
{
    let mut shareds: Vec<Vec<(usize, usize)>> = Vec::new();
    let mut g: usize = 0;
    while g < groups.len()
        invariant
            g <= groups@.len(),
            shareds@.len() == g,
            forall|q: int| 0 <= q < g ==> (#[trigger] shareds@[q])@ == shared_with(groups@[q], target@),
            forall|q: int, k: int| 0 <= q < g && 0 <= k < shareds@[q]@.len() ==>
                (#[trigger] shareds@[q]@[k]).0 < groups@[q].context_plate_ids@.len() && shareds@[q]@[k].1 < target@.len(),
        decreases groups@.len() - g,
    {
        let shared = shared_plate_positions(&groups[g].context_plate_ids, target);
        shareds.push(shared);
        g = g + 1;
    }
    shareds
}

/// The largest weight the groups give draw `d` of the instance at `indices`.
fn best_draw_weight(
    groups: &Vec<SelectionContext>,
    shareds: &Vec<Vec<(usize, usize)>>,
    target: &Vec<u32>,
    indices: &Vec<usize>,
    d: usize,
) -> (best: Option<Weight>)
    requires
        forall|g: int| 0 <= g < groups@.len() ==> selection_ok(#[trigger] groups@[g]),
        forall|g: int| 0 <= g < groups@.len() ==> selection_covered(#[trigger] groups@[g], target@),
        shareds@.len() == groups@.len(),
        forall|g: int| 0 <= g < groups@.len() ==> (#[trigger] shareds@[g])@ == shared_with(groups@[g], target@),
        forall|g: int, k: int| 0 <= g < groups@.len() && 0 <= k < shareds@[g]@.len() ==>
            (#[trigger] shareds@[g]@[k]).0 < groups@[g].context_plate_ids@.len() && shareds@[g]@[k].1 < target@.len(),
        indices@.len() == target@.len(),
    ensures
        best == best_weight(groups@, target@, indices@, d, groups@.len() as int),
{
    let mut best: Option<Weight> = None;
    let mut g: usize = 0;
    while g < groups.len()
        invariant
            g <= groups@.len(),
            forall|q: int| 0 <= q < groups@.len() ==> selection_ok(#[trigger] groups@[q]),
            forall|q: int| 0 <= q < groups@.len() ==> selection_covered(#[trigger] groups@[q], target@),
            shareds@.len() == groups@.len(),
            forall|q: int| 0 <= q < groups@.len() ==> (#[trigger] shareds@[q])@ == shared_with(groups@[q], target@),
            forall|q: int, k: int| 0 <= q < groups@.len() && 0 <= k < shareds@[q]@.len() ==>
                (#[trigger] shareds@[q]@[k]).0 < groups@[q].context_plate_ids@.len() && shareds@[q]@[k].1 < target@.len(),
            indices@.len() == target@.len(),
            best == best_weight(groups@, target@, indices@, d, g as int),
        decreases groups@.len() - g,
    {
        let group = &groups[g];
        let shared = &shareds[g];
        proof {
            assert forall|k: int| 0 <= k < shared@.len() implies (#[trigger] shared@[k]).1 < indices@.len() by {
                assert(shareds@[g as int]@[k].1 < target@.len());
            }
            assert forall|k: int| 0 <= k < shared@.len() implies (#[trigger] shared@[k]).0 < group.context_plate_ids@.len() by {
                assert(shareds@[g as int]@[k].0 < groups@[g as int].context_plate_ids@.len());
            }
            lemma_weights_defined(*group, target@, shared@);
        }
        let key = project_context_path(indices, shared, false);
        match draw_weight(&group.context_instance_paths, &group.draws_by_instance, shared, &key, d) {
            Some(w) => {
                best = heavier_of(best, w);
            },
            None => {},
        }
        g = g + 1;
    }
    best
}

/// The weighted samples of the target instances under the groups of selections.
fn weighted_samples(instances: &Vec<NodeInstanceSamples>, groups: &Vec<SelectionContext>, target: &Vec<u32>) -> (linked: Vec<WeightedSample>)
    requires
        forall|g: int| 0 <= g < groups@.len() ==> selection_ok(#[trigger] groups@[g]),
        forall|g: int| 0 <= g < groups@.len() ==> selection_covered(#[trigger] groups@[g], target@),
        instances_shaped(instances@, target@),
    ensures
        linked@ == linked_view(instances@, groups@, target@, instances@.len() as int),
{
    let shareds = group_shared_positions(groups, target);
    let mut linked: Vec<WeightedSample> = Vec::new();
    let mut k: usize = 0;
    while k < instances.len()
        invariant
            k <= instances@.len(),
            forall|g: int| 0 <= g < groups@.len() ==> selection_ok(#[trigger] groups@[g]),
            forall|g: int| 0 <= g < groups@.len() ==> selection_covered(#[trigger] groups@[g], target@),
            instances_shaped(instances@, target@),
            shareds@.len() == groups@.len(),
            forall|g: int| 0 <= g < groups@.len() ==> (#[trigger] shareds@[g])@ == shared_with(groups@[g], target@),
            forall|g: int, q: int| 0 <= g < groups@.len() && 0 <= q < shareds@[g]@.len() ==>
                (#[trigger] shareds@[g]@[q]).0 < groups@[g].context_plate_ids@.len() && shareds@[g]@[q].1 < target@.len(),
            linked@ == linked_view(instances@, groups@, target@, k as int),
        decreases instances@.len() - k,
    {
        let instance = &instances[k];
        proof { assert(instance.indices@.len() == target@.len()); }
        let ghost before = linked@;
        let mut i: usize = 0;
        while i < instance.samples.len()
            invariant
                k < instances@.len(),
                *instance == instances@[k as int],
                i <= instance.samples@.len(),
                forall|g: int| 0 <= g < groups@.len() ==> selection_ok(#[trigger] groups@[g]),
                forall|g: int| 0 <= g < groups@.len() ==> selection_covered(#[trigger] groups@[g], target@),
                shareds@.len() == groups@.len(),
                forall|g: int| 0 <= g < groups@.len() ==> (#[trigger] shareds@[g])@ == shared_with(groups@[g], target@),
                forall|g: int, q: int| 0 <= g < groups@.len() && 0 <= q < shareds@[g]@.len() ==>
                    (#[trigger] shareds@[g]@[q]).0 < groups@[g].context_plate_ids@.len() && shareds@[g]@[q].1 < target@.len(),
                instance.indices@.len() == target@.len(),
                linked@ == before + weighted_instance(groups@, target@, instance.indices@, instance.samples@, i as int),
            decreases instance.samples@.len() - i,
        {
            let sample = instance.samples[i];
            match best_draw_weight(groups, &shareds, target, &instance.indices, sample.draw_index) {
                Some(w) => {
                    linked.push(WeightedSample { value: sample.value, weight: w });
                },
                None => {},
            }
            i = i + 1;
        }
        k = k + 1;
    }
    linked
}

/// The weighted samples of the target instances under one selection: each sample
/// whose draw the selection picks out in a matching context instance, with the
/// share of those context instances that picked it.
pub fn linked_samples(instances: &Vec<NodeInstanceSamples>, selection: &SelectionContext, target_plate_ids: &Vec<u32>)
    -> (linked: Vec<WeightedSample>)
    requires
        selection_ok(*selection),
        selection_covered(*selection, target_plate_ids@),
        instances_shaped(instances@, target_plate_ids@),
    ensures
        linked@ == linked_view(instances@, seq![*selection], target_plate_ids@, instances@.len() as int),
{
    let ghost groups = seq![*selection];
    let target = target_plate_ids;
    let shared = shared_plate_positions(&selection.context_plate_ids, target);
    proof { lemma_weights_defined(*selection, target@, shared@); }
    let mut linked: Vec<WeightedSample> = Vec::new();
    let mut k: usize = 0;
    while k < instances.len()
        invariant
            k <= instances@.len(),
            groups == seq![*selection],
            instances_shaped(instances@, target@),
            shared@ == shared_with(*selection, target@),
            forall|q: int| 0 <= q < shared@.len() ==> (#[trigger] shared@[q]).1 < target@.len(),
            weights_defined(selection.context_instance_paths@, selection.draws_by_instance@, shared@),
            linked@ == linked_view(instances@, groups, target@, k as int),
        decreases instances@.len() - k,
    {
        let instance = &instances[k];
        proof { assert(instance.indices@.len() == target@.len()); }
        let key = project_context_path(&instance.indices, &shared, false);
        let ghost before = linked@;
        let mut i: usize = 0;
        while i < instance.samples.len()
            invariant
                k < instances@.len(),
                *instance == instances@[k as int],
                i <= instance.samples@.len(),
                groups == seq![*selection],
                shared@ == shared_with(*selection, target@),
                weights_defined(selection.context_instance_paths@, selection.draws_by_instance@, shared@),
                key@ == projection(instance.indices@, shared@, false),
                linked@ == before + weighted_instance(groups, target@, instance.indices@, instance.samples@, i as int),
            decreases instance.samples@.len() - i,
        {
            let sample = instance.samples[i];
            let w = draw_weight(&selection.context_instance_paths, &selection.draws_by_instance, &shared, &key, sample.draw_index);
            proof {
                assert(groups[0] == *selection);
                assert(best_weight(groups, target@, instance.indices@, sample.draw_index, 0) is None);
                assert(best_weight(groups, target@, instance.indices@, sample.draw_index, 1) == w);
                assert(groups.len() == 1);
            }
            match w {
                Some(w) => {
                    linked.push(WeightedSample { value: sample.value, weight: w });
                },
                None => {},
            }
            i = i + 1;
        }
        k = k + 1;
    }
    linked
}

/// Each group's selected paths are covered by its context when every selection's are.
proof fn lemma_groups_covered(sels: Seq<SelectionContext>, groups: Seq<SelectionContext>, target: Seq<u32>)
    requires
        forall|i: int| 0 <= i < sels.len() ==> selection_covered(#[trigger] sels[i], target),
        groups_ok(sels, groups),
    ensures
        forall|g: int| 0 <= g < groups.len() ==> selection_ok(#[trigger] groups[g]),
        forall|g: int| 0 <= g < groups.len() ==> selection_covered(#[trigger] groups[g], target),
{
    reveal(groups_valid);
    reveal(groups_union);
    assert forall|g: int| 0 <= g < groups.len() implies selection_covered(#[trigger] groups[g], target) by {
        let grp = groups[g];
        assert forall|a: int| 0 <= a < grp.draws_by_instance@.len() implies covered(grp.context_instance_paths@,
            shared_with(grp, target), (#[trigger] grp.draws_by_instance@[a]).path@) by {
            let p = grp.draws_by_instance@[a].path@;
            assert(has_path(grp.draws_by_instance@, p));
            assert(group_has_path(sels, grp, p));
            let i = choose|i: int| 0 <= i < sels.len() && same_context(#[trigger] sels[i], grp) && has_path(sels[i].draws_by_instance@, p);
            let sel = sels[i];
            let e = choose|e: int| 0 <= e < sel.draws_by_instance@.len() && (#[trigger] sel.draws_by_instance@[e]).path@ == p;
            reveal(same_context);
            assert(shared_with(sel, target) == shared_with(grp, target));
            assert(covered(sel.context_instance_paths@, shared_with(sel, target), sel.draws_by_instance@[e].path@));
            let b = choose|b: int| 0 <= b < sel.context_instance_paths@.len() && projection(sel.context_instance_paths@[b]@,
                shared_with(sel, target), true) == projection(p, shared_with(sel, target), true);
            assert(grp.context_instance_paths@[b]@ == sel.context_instance_paths@[b]@);
        }
    }
}

/// The weighted samples of the target instances under all selections: the
/// selections made in one context are first joined, draws unioned per instance;
/// each sample then gets the largest weight any context gives it, and samples no
/// context selects are left out.
pub fn linked_samples_for_selections(instances: &Vec<NodeInstanceSamples>, selections: &Vec<SelectionContext>, target_plate_ids: &Vec<u32>)
    -> (linked: Vec<WeightedSample>)
    requires
        forall|i: int| 0 <= i < selections@.len() ==> selection_ok(#[trigger] selections@[i]),
        forall|i: int| 0 <= i < selections@.len() ==> selection_covered(#[trigger] selections@[i], target_plate_ids@),
        instances_shaped(instances@, target_plate_ids@),
    ensures
        exists|groups: Seq<SelectionContext>| #[trigger] groups_ok(selections@, groups)
            && linked@ == linked_view(instances@, groups, target_plate_ids@, instances@.len() as int)
            && forall|g: int| 0 <= g < groups.len() ==> selection_covered(#[trigger] groups[g], target_plate_ids@)
            && forall|k: int| 0 <= k < linked@.len() ==> #[trigger] weighted_from_any(instances@, groups,
                target_plate_ids@, instances@.len() as int, linked@[k]),
{
    let groups = group_selections(selections);
    proof { lemma_groups_covered(selections@, groups@, target_plate_ids@); }
    let linked = weighted_samples(instances, &groups, target_plate_ids);
    proof {
        lemma_linked_view_weights(instances@, groups@, target_plate_ids@, instances@.len() as int);
        assert(groups_ok(selections@, groups@));
    }
    linked
}

/// Every sample with weight one.
pub fn unweighted_samples(samples: &Vec<PosteriorSample>) -> (weighted: Vec<WeightedSample>)
    ensures
        weighted@.len() == samples@.len(),
        forall|i: int| 0 <= i < samples@.len() ==> #[trigger] weighted@[i]
            == (WeightedSample { value: samples@[i].value, weight: Weight { num: 1, den: 1 } }),
{
    let mut weighted: Vec<WeightedSample> = Vec::new();
    let mut i: usize = 0;
    while i < samples.len()
        invariant
            i <= samples@.len(),
            weighted@.len() == i,
            forall|q: int| 0 <= q < i ==> #[trigger] weighted@[q]
                == (WeightedSample { value: samples@[q].value, weight: Weight { num: 1, den: 1 } }),
        decreases samples@.len() - i,
    {
        weighted.push(WeightedSample { value: samples[i].value, weight: Weight { num: 1, den: 1 } });
        i = i + 1;
    }
    weighted
}

} // verus!
