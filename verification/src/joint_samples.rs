//! Pairs of posterior values of two nodes drawn in the same draw, in instances
//! that agree on the plates the two nodes share.
use crate::inference::{NodeInstanceSamples, PosteriorSample};
use crate::posterior_views::{
    draws_ok, find_entry, instances_shaped, project_context_path, projection, shared_plate_positions, shared_positions,
    InstanceDraws,
};
use vstd::prelude::*;

verus! {

broadcast use vstd::seq_lib::group_seq_properties;

/// One point of a joint plot: the context instance it belongs to, by position,
/// its draw, and the bit patterns of the two values.
#[derive(Clone, Copy, Debug, PartialEq, Eq, Structural)]
pub struct JointSample {
    pub context_instance: usize,
    pub draw_index: usize,
    pub x: u64,
    pub y: u64,
}

/// The first `end` plates of `y_ids` that `x_ids` lacks, in order.
pub open spec fn extra_plates(x_ids: Seq<u32>, y_ids: Seq<u32>, end: int) -> Seq<u32>
    decreases end,
{
    if end <= 0 {
        Seq::empty()
    } else {
        let before = extra_plates(x_ids, y_ids, end - 1);
        if x_ids.contains(y_ids[end - 1]) { before } else { before.push(y_ids[end - 1]) }
    }
}

/// The indices a `y` instance has, among its first `end`, on plates `x_ids` lacks.
pub open spec fn extra_indices(x_ids: Seq<u32>, y_ids: Seq<u32>, y_indices: Seq<usize>, end: int) -> Seq<usize>
    decreases end,
{
    if end <= 0 {
        Seq::empty()
    } else {
        let before = extra_indices(x_ids, y_ids, y_indices, end - 1);
        if x_ids.contains(y_ids[end - 1]) { before } else { before.push(y_indices[end - 1]) }
    }
}

/// The `x` and `y` instances agree on every plate they share.
pub open spec fn rows_match(shared: Seq<(usize, usize)>, x_indices: Seq<usize>, y_indices: Seq<usize>) -> bool {
    projection(x_indices, shared, true) == projection(y_indices, shared, false)
}

/// The pairs `(a, b)` of `x` instance `a` and each of the first `b_end` `y`
/// instances that agree on the shared plates.
pub open spec fn row_pairs(xs: Seq<NodeInstanceSamples>, ys: Seq<NodeInstanceSamples>, shared: Seq<(usize, usize)>, a: int, b_end: int)
    -> Seq<(int, int)>
    decreases b_end,
{
    if b_end <= 0 {
        Seq::empty()
    } else {
        let before = row_pairs(xs, ys, shared, a, b_end - 1);
        if rows_match(shared, xs[a].indices@, ys[b_end - 1].indices@) { before.push((a, b_end - 1)) } else { before }
    }
}

/// The agreeing pairs of the first `a_end` `x` instances, `x` instance by `x`
/// instance and, within one, in `y` order.
pub open spec fn joint_pairs(xs: Seq<NodeInstanceSamples>, ys: Seq<NodeInstanceSamples>, shared: Seq<(usize, usize)>, a_end: int)
    -> Seq<(int, int)>
    decreases a_end,
{
    if a_end <= 0 {
        Seq::empty()
    } else {
        joint_pairs(xs, ys, shared, a_end - 1) + row_pairs(xs, ys, shared, a_end - 1, ys.len() as int)
    }
}

/// The joint context path of a pair: the `x` indices, then the `y` indices on
/// plates `x` lacks.
pub open spec fn pair_context(xs: Seq<NodeInstanceSamples>, ys: Seq<NodeInstanceSamples>, x_ids: Seq<u32>, y_ids: Seq<u32>, p: (int, int))
    -> Seq<usize>
{
    xs[p.0].indices@ + extra_indices(x_ids, y_ids, ys[p.1].indices@, y_ids.len() as int)
}

/// The distinct context paths of the pairs, in the order they first occur.
pub open spec fn contexts_of(xs: Seq<NodeInstanceSamples>, ys: Seq<NodeInstanceSamples>, x_ids: Seq<u32>, y_ids: Seq<u32>, pairs: Seq<(int, int)>)
    -> Seq<Seq<usize>>
    decreases pairs.len(),
{
    if pairs.len() == 0 {
        Seq::empty()
    } else {
        let before = contexts_of(xs, ys, x_ids, y_ids, pairs.drop_last());
        let c = pair_context(xs, ys, x_ids, y_ids, pairs.last());
        if before.contains(c) { before } else { before.push(c) }
    }
}

/// The position of the first occurrence of `c` in `s`.
pub open spec fn first_index(s: Seq<Seq<usize>>, c: Seq<usize>) -> int {
    choose|i: int| 0 <= i < s.len() && s[i] == c && forall|j: int| 0 <= j < i ==> s[j] != c
}

/// The value of the last of the first `end` samples drawn in draw `d`, if any.
pub open spec fn last_value(samples: Seq<PosteriorSample>, d: usize, end: int) -> Option<u64>
    decreases end,
{
    if end <= 0 {
        None
    } else if samples[end - 1].draw_index == d {
        Some(samples[end - 1].value)
    } else {
        last_value(samples, d, end - 1)
    }
}

/// The points of the first `end` `x` samples that have a `y` value of the same draw.
pub open spec fn pair_points(x_samples: Seq<PosteriorSample>, y_samples: Seq<PosteriorSample>, context: int, end: int) -> Seq<JointSample>
    decreases end,
{
    if end <= 0 {
        Seq::empty()
    } else {
        let before = pair_points(x_samples, y_samples, context, end - 1);
        let x = x_samples[end - 1];
        match last_value(y_samples, x.draw_index, y_samples.len() as int) {
            Some(y) => before.push(JointSample { context_instance: context as usize, draw_index: x.draw_index, x: x.value, y }),
            None => before,
        }
    }
}

/// The points of the pairs, pair after pair, each tagged with the position of its
/// context path.
pub open spec fn joint_points(xs: Seq<NodeInstanceSamples>, ys: Seq<NodeInstanceSamples>, x_ids: Seq<u32>, y_ids: Seq<u32>, pairs: Seq<(int, int)>)
    -> Seq<JointSample>
    decreases pairs.len(),
{
    if pairs.len() == 0 {
        Seq::empty()
    } else {
        let p = pairs.last();
        let context = first_index(contexts_of(xs, ys, x_ids, y_ids, pairs), pair_context(xs, ys, x_ids, y_ids, p));
        joint_points(xs, ys, x_ids, y_ids, pairs.drop_last())
            + pair_points(xs[p.0].samples@, ys[p.1].samples@, context, xs[p.0].samples@.len() as int)
    }
}

/// The index paths of a list of paths.
pub open spec fn path_views(paths: Seq<Vec<usize>>) -> Seq<Seq<usize>> {
    paths.map_values(|p: Vec<usize>| p@)
}

/// The value of the last sample drawn in draw `d`, if any.
fn last_value_of(samples: &Vec<PosteriorSample>, d: usize) -> (value: Option<u64>)
    ensures
        value == last_value(samples@, d, samples@.len() as int),
{
    let mut i: usize = samples.len();
    while i > 0
        invariant
            i <= samples@.len(),
            forall|j: int| i <= j < samples@.len() ==> (#[trigger] samples@[j]).draw_index != d,
            last_value(samples@, d, samples@.len() as int) == last_value(samples@, d, i as int),
        decreases i,
    {
        if samples[i - 1].draw_index == d {
            return Some(samples[i - 1].value);
        }
        i = i - 1;
    }
    None
}

/// The `y` indices on plates `x` lacks.
fn extra_index_path(x_ids: &Vec<u32>, y_ids: &Vec<u32>, y_indices: &Vec<usize>) -> (extra: Vec<usize>)
    requires
        y_indices@.len() == y_ids@.len(),
    ensures
        extra@ == extra_indices(x_ids@, y_ids@, y_indices@, y_ids@.len() as int),
{
    let mut extra: Vec<usize> = Vec::new();
    let mut i: usize = 0;
    while i < y_ids.len()
        invariant
            i <= y_ids@.len(),
            y_indices@.len() == y_ids@.len(),
            extra@ == extra_indices(x_ids@, y_ids@, y_indices@, i as int),
        decreases y_ids@.len() - i,
    {
        if !crate::util::contains_id(x_ids, y_ids[i]) {
            extra.push(y_indices[i]);
        }
        i = i + 1;
    }
    extra
}

/// The plates of the joint context: those of `x`, then those of `y` that `x` lacks.
fn joint_plate_ids(x_ids: &Vec<u32>, y_ids: &Vec<u32>) -> (ids: Vec<u32>)
    ensures
        ids@ == x_ids@ + extra_plates(x_ids@, y_ids@, y_ids@.len() as int),
{
    let mut ids = crate::util::copy_ids(x_ids);
    let mut i: usize = 0;
    while i < y_ids.len()
        invariant
            i <= y_ids@.len(),
            ids@ == x_ids@ + extra_plates(x_ids@, y_ids@, i as int),
        decreases y_ids@.len() - i,
    {
        if !crate::util::contains_id(x_ids, y_ids[i]) {
            ids.push(y_ids[i]);
        }
        i = i + 1;
    }
    ids
}

/// The position of `c` among the context paths, adding it at the end if it is new.
fn context_position(paths: &mut Vec<Vec<usize>>, c: Vec<usize>) -> (pos: usize)
    requires
        path_views(old(paths)@).no_duplicates(),
    ensures
        path_views(final(paths)@) == (if path_views(old(paths)@).contains(c@) { path_views(old(paths)@) } else {
            path_views(old(paths)@).push(c@) }),
        path_views(final(paths)@).no_duplicates(),
        pos == first_index(path_views(final(paths)@), c@),
        pos < final(paths)@.len(),
{
    let ghost before = path_views(paths@);
    let mut p: usize = 0;
    while p < paths.len()
        invariant
            p <= paths@.len(),
            before == path_views(paths@),
            before.no_duplicates(),
            forall|q: int| 0 <= q < p ==> paths@[q]@ != c@,
        decreases paths@.len() - p,
    {
        if crate::instance_plan::same_indices(&paths[p], &c) {
            proof {
                assert(before[p as int] == c@);
                assert(before.contains(c@));
                lemma_first_index(before, p as int);
            }
            return p;
        }
        p = p + 1;
    }
    proof {
        assert forall|q: int| 0 <= q < before.len() implies before[q] != c@ by {
            assert(before[q] == paths@[q]@);
        }
    }
    let ghost c_view = c@;
    paths.push(c);
    proof {
        let after = path_views(paths@);
        assert(after =~= before.push(c_view));
        assert(after.no_duplicates()) by {
            assert forall|x: int, y: int| 0 <= x < after.len() && 0 <= y < after.len() && x != y implies after[x] != after[y] by {
                if x < before.len() && y < before.len() {
                    assert(after[x] == before[x]);
                    assert(after[y] == before[y]);
                } else if x < before.len() {
                    assert(after[x] == before[x]);
                } else if y < before.len() {
                    assert(after[y] == before[y]);
                }
            }
        }
        lemma_first_index(after, before.len() as int);
    }
    p
}

/// In a list without duplicates, an element's first position is its position.
proof fn lemma_first_index(s: Seq<Seq<usize>>, i: int)
    requires
        s.no_duplicates(),
        0 <= i < s.len(),
    ensures
        first_index(s, s[i]) == i,
{
    assert(forall|j: int| 0 <= j < i ==> s[j] != s[i]);
    let f = first_index(s, s[i]);
    assert(0 <= f < s.len() && s[f] == s[i]);
}

/// The points of one agreeing pair.
fn points_of_pair(x: &NodeInstanceSamples, y: &NodeInstanceSamples, context: usize, points: &mut Vec<JointSample>)
    ensures
        final(points)@ == old(points)@ + pair_points(x.samples@, y.samples@, context as int, x.samples@.len() as int),
{
    let ghost start = points@;
    let mut i: usize = 0;
    while i < x.samples.len()
        invariant
            i <= x.samples@.len(),
            points@ == start + pair_points(x.samples@, y.samples@, context as int, i as int),
        decreases x.samples@.len() - i,
    {
        let s = x.samples[i];
        match last_value_of(&y.samples, s.draw_index) {
            Some(v) => {
                points.push(JointSample { context_instance: context, draw_index: s.draw_index, x: s.value, y: v });
            },
            None => {},
        }
        i = i + 1;
    }
}

/// The joint samples of two nodes: every `x` instance is paired with every `y`
/// instance that agrees with it on the plates both nodes share, and every `x`
/// sample with the `y` sample of the same draw, the last one where a draw repeats.
/// Also returned: the plates of the joint context, and the distinct joint
/// context paths in the order they first occur, which the points index.
pub fn build_joint_samples(
    x_instances: &Vec<NodeInstanceSamples>,
    x_plate_ids: &Vec<u32>,
    y_instances: &Vec<NodeInstanceSamples>,
    y_plate_ids: &Vec<u32>,
) -> (result: (Vec<JointSample>, Vec<u32>, Vec<Vec<usize>>))
    requires
        instances_shaped(x_instances@, x_plate_ids@),
        instances_shaped(y_instances@, y_plate_ids@),
    ensures
        ({
            let shared = shared_positions(x_plate_ids@, y_plate_ids@, x_plate_ids@.len() as int);
            let pairs = joint_pairs(x_instances@, y_instances@, shared, x_instances@.len() as int);
            &&& result.0@ == joint_points(x_instances@, y_instances@, x_plate_ids@, y_plate_ids@, pairs)
            &&& result.1@ == x_plate_ids@ + extra_plates(x_plate_ids@, y_plate_ids@, y_plate_ids@.len() as int)
            &&& path_views(result.2@) == contexts_of(x_instances@, y_instances@, x_plate_ids@, y_plate_ids@, pairs)
        }),
{
    let shared = shared_plate_positions(x_plate_ids, y_plate_ids);
    let context_plate_ids = joint_plate_ids(x_plate_ids, y_plate_ids);
    let ghost xs = x_instances@;
    let ghost ys = y_instances@;
    let ghost xi = x_plate_ids@;
    let ghost yi = y_plate_ids@;
    let mut context_paths: Vec<Vec<usize>> = Vec::new();
    let mut points: Vec<JointSample> = Vec::new();
    let mut a: usize = 0;
    proof {
        assert(path_views(context_paths@) =~= Seq::<Seq<usize>>::empty());
    }
    while a < x_instances.len()
        invariant
            a <= xs.len(),
            xs == x_instances@,
            ys == y_instances@,
            xi == x_plate_ids@,
            yi == y_plate_ids@,
            instances_shaped(xs, xi),
            instances_shaped(ys, yi),
            shared@ == shared_positions(xi, yi, xi.len() as int),
            forall|k: int| 0 <= k < shared@.len() ==> (#[trigger] shared@[k]).0 < xi.len() && shared@[k].1 < yi.len(),
            path_views(context_paths@).no_duplicates(),
            path_views(context_paths@) == contexts_of(xs, ys, xi, yi, joint_pairs(xs, ys, shared@, a as int)),
            points@ == joint_points(xs, ys, xi, yi, joint_pairs(xs, ys, shared@, a as int)),
        decreases xs.len() - a,
    {
        let x = &x_instances[a];
        proof { assert(x.indices@.len() == xi.len()); }
        let x_key = project_context_path(&x.indices, &shared, true);
        let ghost done = joint_pairs(xs, ys, shared@, a as int);
        let mut b: usize = 0;
        while b < y_instances.len()
            invariant
                a < xs.len(),
                b <= ys.len(),
                xs == x_instances@,
                ys == y_instances@,
                xi == x_plate_ids@,
                yi == y_plate_ids@,
                *x == xs[a as int],
                instances_shaped(ys, yi),
                x_key@ == projection(x.indices@, shared@, true),
                forall|k: int| 0 <= k < shared@.len() ==> (#[trigger] shared@[k]).0 < xi.len() && shared@[k].1 < yi.len(),
                done == joint_pairs(xs, ys, shared@, a as int),
                path_views(context_paths@).no_duplicates(),
                path_views(context_paths@) == contexts_of(xs, ys, xi, yi, done + row_pairs(xs, ys, shared@, a as int, b as int)),
                points@ == joint_points(xs, ys, xi, yi, done + row_pairs(xs, ys, shared@, a as int, b as int)),
            decreases ys.len() - b,
        {
            let y = &y_instances[b];
            proof { assert(y.indices@.len() == yi.len()); }
            let y_key = project_context_path(&y.indices, &shared, false);
            let ghost prior = done + row_pairs(xs, ys, shared@, a as int, b as int);
            if crate::instance_plan::same_indices(&x_key, &y_key) {
                let mut context = crate::util::copy_usizes(&x.indices);
                let extra = extra_index_path(x_plate_ids, y_plate_ids, &y.indices);
                let mut j: usize = 0;
                let ghost base = context@;
                while j < extra.len()
                    invariant
                        j <= extra@.len(),
                        context@ == base + extra@.take(j as int),
                    decreases extra@.len() - j,
                {
                    context.push(extra[j]);
                    proof { assert(extra@.take(j + 1) =~= extra@.take(j as int).push(extra@[j as int])); }
                    j = j + 1;
                }
                proof { assert(extra@.take(extra@.len() as int) =~= extra@); }
                let ghost next = prior.push((a as int, b as int));
                proof {
                    assert(done + row_pairs(xs, ys, shared@, a as int, b + 1) =~= next);
                    assert(next.drop_last() =~= prior);
                    assert(context@ == pair_context(xs, ys, xi, yi, next.last()));
                }
                let position = context_position(&mut context_paths, context);
                points_of_pair(x, y, position, &mut points);
            } else {
                proof {
                    assert(done + row_pairs(xs, ys, shared@, a as int, b + 1) =~= prior);
                }
            }
            b = b + 1;
        }
        proof {
            assert(joint_pairs(xs, ys, shared@, a + 1) =~= done + row_pairs(xs, ys, shared@, a as int, ys.len() as int));
        }
        a = a + 1;
    }
    (points, context_plate_ids, context_paths)
}


/// The points of one pair all carry that pair's context position.
proof fn lemma_pair_points_context(x_samples: Seq<PosteriorSample>, y_samples: Seq<PosteriorSample>, context: int, end: int)
    ensures
        pair_points(x_samples, y_samples, context, end).len() <= if end < 0 { 0 } else { end },
        forall|k: int| 0 <= k < pair_points(x_samples, y_samples, context, end).len()
            ==> (#[trigger] pair_points(x_samples, y_samples, context, end)[k]).context_instance == context as usize,
    decreases end,
{
    if end > 0 {
        lemma_pair_points_context(x_samples, y_samples, context, end - 1);
    }
}

/// The distinct context paths hold each path once, at most one per pair, and
/// include the context of every pair.
proof fn lemma_contexts_of(xs: Seq<NodeInstanceSamples>, ys: Seq<NodeInstanceSamples>, x_ids: Seq<u32>, y_ids: Seq<u32>, pairs: Seq<(int, int)>)
    ensures
        contexts_of(xs, ys, x_ids, y_ids, pairs).no_duplicates(),
        contexts_of(xs, ys, x_ids, y_ids, pairs).len() <= pairs.len(),
        pairs.len() > 0 ==> contexts_of(xs, ys, x_ids, y_ids, pairs).contains(pair_context(xs, ys, x_ids, y_ids, pairs.last())),
        pairs.len() > 0 ==> contexts_of(xs, ys, x_ids, y_ids, pairs.drop_last()).len() <= contexts_of(xs, ys, x_ids, y_ids, pairs).len(),
    decreases pairs.len(),
{
    if pairs.len() > 0 {
        let before = contexts_of(xs, ys, x_ids, y_ids, pairs.drop_last());
        let c = pair_context(xs, ys, x_ids, y_ids, pairs.last());
        lemma_contexts_of(xs, ys, x_ids, y_ids, pairs.drop_last());
        if !before.contains(c) {
            let after = before.push(c);
            assert(after[before.len() as int] == c);
            assert forall|a: int, b: int| 0 <= a < b < after.len() implies after[a] != after[b] by {
                if b == before.len() {
                    assert(after[a] == before[a]);
                } else {
                    assert(after[a] == before[a]);
                    assert(after[b] == before[b]);
                }
            }
        }
    }
}

/// Every joint point names a position among the distinct context paths: the
/// position of the context path of the pair it belongs to.
pub proof fn lemma_points_index_contexts(
    xs: Seq<NodeInstanceSamples>,
    ys: Seq<NodeInstanceSamples>,
    x_ids: Seq<u32>,
    y_ids: Seq<u32>,
    pairs: Seq<(int, int)>,
)
    requires
        pairs.len() <= usize::MAX,
    ensures
        forall|k: int| 0 <= k < joint_points(xs, ys, x_ids, y_ids, pairs).len()
            ==> (#[trigger] joint_points(xs, ys, x_ids, y_ids, pairs)[k]).context_instance
                < contexts_of(xs, ys, x_ids, y_ids, pairs).len(),
    decreases pairs.len(),
{
    if pairs.len() > 0 {
        let q = pairs.drop_last();
        let p = pairs.last();
        let cs = contexts_of(xs, ys, x_ids, y_ids, pairs);
        let c = pair_context(xs, ys, x_ids, y_ids, p);
        lemma_points_index_contexts(xs, ys, x_ids, y_ids, q);
        lemma_contexts_of(xs, ys, x_ids, y_ids, pairs);
        let i0 = choose|i: int| 0 <= i < cs.len() && cs[i] == c;
        assert(forall|j: int| 0 <= j < i0 ==> cs[j] != c);
        let f = first_index(cs, c);
        assert(0 <= f < cs.len());
        let pts = pair_points(xs[p.0].samples@, ys[p.1].samples@, f, xs[p.0].samples@.len() as int);
        lemma_pair_points_context(xs[p.0].samples@, ys[p.1].samples@, f, xs[p.0].samples@.len() as int);
        let before = joint_points(xs, ys, x_ids, y_ids, q);
        assert(joint_points(xs, ys, x_ids, y_ids, pairs) == before + pts);
        assert forall|k: int| 0 <= k < (before + pts).len() implies (#[trigger] (before + pts)[k]).context_instance < cs.len() by {
            if k < before.len() {
                assert((before + pts)[k] == before[k]);
            } else {
                assert((before + pts)[k] == pts[k - before.len()]);
            }
        }
    }
}

/// The point is inside the lasso.
pub open spec fn lassoed(inside: Seq<bool>, q: int) -> bool {
    inside[q]
}

/// Draw `d` of the context instance at `path` is among the lassoed points.
pub open spec fn chosen(points: Seq<JointSample>, inside: Seq<bool>, paths: Seq<Vec<usize>>, path: Seq<usize>, d: usize) -> bool {
    exists|k: int| 0 <= k < points.len() && #[trigger] lassoed(inside, k)
        && paths[points[k].context_instance as int]@ == path && points[k].draw_index == d
}

/// The draws of each joint context instance among the points inside the lasso
/// (`inside` flags each point); instances appear in the order they are first met.
pub fn joint_selection(points: &Vec<JointSample>, inside: &Vec<bool>, paths: &Vec<Vec<usize>>) -> (selected: Vec<InstanceDraws>)
    requires
        inside@.len() == points@.len(),
        forall|k: int| 0 <= k < points@.len() ==> (#[trigger] points@[k]).context_instance < paths@.len(),
    ensures
        draws_ok(selected@),
        forall|a: int| 0 <= a < selected@.len() ==> (#[trigger] selected@[a]).draws@.len() > 0,
        forall|a: int, d: usize| #![trigger selected@[a].draws@.contains(d)] #![trigger chosen(points@, inside@, paths@, selected@[a].path@, d)] 0 <= a < selected@.len() ==> (selected@[a].draws@.contains(d) <==> chosen(points@, inside@, paths@, selected@[a].path@, d)),
        forall|path: Seq<usize>, d: usize| #[trigger] chosen(points@, inside@, paths@, path, d)
            ==> exists|a: int| 0 <= a < selected@.len() && (#[trigger] selected@[a]).path@ == path,
{
    let mut selected: Vec<InstanceDraws> = Vec::new();
    let mut k: usize = 0;
    while k < points.len()
        invariant
            k <= points@.len(),
            inside@.len() == points@.len(),
            forall|q: int| 0 <= q < points@.len() ==> (#[trigger] points@[q]).context_instance < paths@.len(),
            draws_ok(selected@),
            forall|a: int| 0 <= a < selected@.len() ==> (#[trigger] selected@[a]).draws@.len() > 0,
            forall|a: int, d: usize| #![trigger selected@[a].draws@.contains(d)] #![trigger chosen(points@.take(k as int), inside@, paths@, selected@[a].path@, d)]
            0 <= a < selected@.len() ==> (selected@[a].draws@.contains(d) <==> chosen(points@.take(k as int), inside@, paths@, selected@[a].path@, d)),
            forall|path: Seq<usize>, d: usize| #[trigger] chosen(points@.take(k as int), inside@, paths@, path, d)
                ==> exists|a: int| 0 <= a < selected@.len() && (#[trigger] selected@[a]).path@ == path,
        decreases points@.len() - k,
    {
        let sample = points[k];
        let picked = inside[k];
        let ghost before = selected@;
        let ghost taken = points@.take(k as int);
        let ghost next = points@.take(k + 1);
        proof { assert(next =~= taken.push(sample)); }
        if picked {
            let path = &paths[sample.context_instance];
            match find_entry(&selected, path) {
                Some(p) => {
                    let mut entry = selected.remove(p);
                    if !crate::util::contains_usize(&entry.draws, sample.draw_index) {
                        entry.draws.push(sample.draw_index);
                    }
                    selected.insert(p, entry);
                },
                None => {
                    let mut draws: Vec<usize> = Vec::new();
                    draws.push(sample.draw_index);
                    selected.push(InstanceDraws { path: crate::util::copy_usizes(path), draws });
                },
            }
            proof { lemma_lasso_step(points@, inside@, paths@, k as int, before, selected@); }
        } else {
            proof {
                assert forall|path: Seq<usize>, d: usize| chosen(next, inside@, paths@, path, d)
                    == chosen(taken, inside@, paths@, path, d) by {
                    if chosen(next, inside@, paths@, path, d) {
                        let q = choose|q: int| 0 <= q < next.len() && #[trigger] lassoed(inside@, q)
                            && paths@[next[q].context_instance as int]@ == path && next[q].draw_index == d;
                        assert(q < k);
                        assert(next[q] == taken[q]);
                    }
                    if chosen(taken, inside@, paths@, path, d) {
                        let q = choose|q: int| 0 <= q < taken.len() && #[trigger] lassoed(inside@, q)
                            && paths@[taken[q].context_instance as int]@ == path && taken[q].draw_index == d;
                        assert(next[q] == taken[q]);
                    }
                }
            }
        }
        k = k + 1;
    }
    proof { assert(points@.take(points@.len() as int) =~= points@); }
    selected
}

/// Adding lassoed point `k` to the selection of the points before it.
#[verifier::rlimit(40)]
proof fn lemma_lasso_step(
    points: Seq<JointSample>,
    inside: Seq<bool>,
    paths: Seq<Vec<usize>>,
    k: int,
    before: Seq<InstanceDraws>,
    after: Seq<InstanceDraws>,
)
    requires
        0 <= k < points.len(),
        points[k].context_instance < paths.len(),
        lassoed(inside, k),
        draws_ok(before),
        forall|a: int| 0 <= a < before.len() ==> (#[trigger] before[a]).draws@.len() > 0,
        forall|a: int, d: usize| #![trigger before[a].draws@.contains(d)] #![trigger chosen(points.take(k), inside, paths, before[a].path@, d)]
            0 <= a < before.len() ==> (before[a].draws@.contains(d) <==> chosen(points.take(k), inside, paths, before[a].path@, d)),
        forall|path: Seq<usize>, d: usize| #[trigger] chosen(points.take(k), inside, paths, path, d)
            ==> exists|a: int| 0 <= a < before.len() && (#[trigger] before[a]).path@ == path,
        ({
            let path = paths[points[k].context_instance as int]@;
            let d = points[k].draw_index;
            ||| exists|p: int| 0 <= p < before.len() && before[p].path@ == path && after.len() == before.len()
                && (forall|a: int| 0 <= a < before.len() && a != p ==> after[a] == before[a])
                && after[p].path@ == path
                && (after[p].draws@ == if before[p].draws@.contains(d) { before[p].draws@ } else { before[p].draws@.push(d) })
            ||| (forall|a: int| 0 <= a < before.len() ==> (#[trigger] before[a]).path@ != path) && after.len() == before.len() + 1
                && (forall|a: int| 0 <= a < before.len() ==> after[a] == before[a])
                && after[before.len() as int].path@ == path && after[before.len() as int].draws@ == seq![d]
        }),
    ensures
        draws_ok(after),
        forall|a: int| 0 <= a < after.len() ==> (#[trigger] after[a]).draws@.len() > 0,
        forall|a: int, d: usize| #![trigger after[a].draws@.contains(d)] #![trigger chosen(points.take(k + 1), inside, paths, after[a].path@, d)]
            0 <= a < after.len() ==> (after[a].draws@.contains(d) <==> chosen(points.take(k + 1), inside, paths, after[a].path@, d)),
        forall|path: Seq<usize>, d: usize| #[trigger] chosen(points.take(k + 1), inside, paths, path, d)
            ==> exists|a: int| 0 <= a < after.len() && (#[trigger] after[a]).path@ == path,
{
    let taken = points.take(k);
    let next = points.take(k + 1);
    assert(next =~= taken.push(points[k]));
    let path0 = paths[points[k].context_instance as int]@;
    let d0 = points[k].draw_index;
    assert forall|path: Seq<usize>, d: usize| chosen(next, inside, paths, path, d)
        <==> (chosen(taken, inside, paths, path, d) || (path == path0 && d == d0)) by {
        if chosen(next, inside, paths, path, d) {
            let q = choose|q: int| 0 <= q < next.len() && #[trigger] lassoed(inside, q)
                && paths[next[q].context_instance as int]@ == path && next[q].draw_index == d;
            if q < k {
                assert(next[q] == taken[q]);
            }
        }
        if chosen(taken, inside, paths, path, d) {
            let q = choose|q: int| 0 <= q < taken.len() && #[trigger] lassoed(inside, q)
                && paths[taken[q].context_instance as int]@ == path && taken[q].draw_index == d;
            assert(next[q] == taken[q]);
        }
        if path == path0 && d == d0 {
            assert(next[k] == points[k]);
            assert(lassoed(inside, k));
        }
    }
}


} // verus!
