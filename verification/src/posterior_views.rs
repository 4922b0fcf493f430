//! How posterior samples of plate instances are pooled, paired and linked between
//! the views that display them.
use crate::inference::{NodeInstanceSamples, PosteriorSample};
use crate::text::{decimal, push_decimal, push_str};
use vstd::prelude::*;

verus! {

broadcast use vstd::seq_lib::group_seq_properties;

/// One plotted posterior value: the instance it belongs to, by position, its draw
/// and its value's bit pattern.
#[derive(Clone, Copy, Debug, PartialEq, Eq, Structural)]
pub struct HistogramSample {
    pub instance: usize,
    pub draw_index: usize,
    pub value: u64,
}

/// What a histogram shows: one concrete instance, or every instance pooled.
#[derive(Clone, Debug, PartialEq, Eq)]
pub enum HistogramScope {
    Instance(Vec<usize>),
    Pooled { instance_count: usize },
}

/// The samples of the first `end` instances, one instance after another.
pub open spec fn pooled(instances: Seq<NodeInstanceSamples>, end: int) -> Seq<PosteriorSample>
    decreases end,
{
    if end <= 0 { Seq::empty() } else { pooled(instances, end - 1) + instances[end - 1].samples@ }
}

/// The samples of one instance as plotted values of instance `k`.
pub open spec fn plotted(samples: Seq<PosteriorSample>, k: int) -> Seq<HistogramSample> {
    samples.map_values(|s: PosteriorSample| HistogramSample { instance: k as usize, draw_index: s.draw_index, value: s.value })
}

/// The plotted values of the first `end` instances.
pub open spec fn plotted_upto(instances: Seq<NodeInstanceSamples>, end: int) -> Seq<HistogramSample>
    decreases end,
{
    if end <= 0 { Seq::empty() } else { plotted_upto(instances, end - 1) + plotted(instances[end - 1].samples@, end - 1) }
}

/// A copy of a list of samples.
fn copy_samples(samples: &Vec<PosteriorSample>) -> (copy: Vec<PosteriorSample>)
    ensures
        copy@ == samples@,
{
    let mut copy: Vec<PosteriorSample> = Vec::new();
    let mut i: usize = 0;
    while i < samples.len()
        invariant
            i <= samples@.len(),
            copy@ == samples@.take(i as int),
        decreases samples@.len() - i,
    {
        copy.push(samples[i]);
        proof { assert(samples@.take(i + 1) =~= samples@.take(i as int).push(samples@[i as int])); }
        i = i + 1;
    }
    assert(samples@.take(samples@.len() as int) =~= samples@);
    copy
}

/// Every instance's samples in one list, instance after instance; a draw appears
/// once for every instance it has a value in.
pub fn pool_instance_samples(instances: &Vec<NodeInstanceSamples>) -> (pool: Vec<PosteriorSample>)
    ensures
        pool@ == pooled(instances@, instances@.len() as int),
{
    let mut pool: Vec<PosteriorSample> = Vec::new();
    let mut k: usize = 0;
    while k < instances.len()
        invariant
            k <= instances@.len(),
            pool@ == pooled(instances@, k as int),
        decreases instances@.len() - k,
    {
        let ghost before = pool@;
        let samples = &instances[k].samples;
        let mut i: usize = 0;
        while i < samples.len()
            invariant
                i <= samples@.len(),
                pool@ == before + samples@.take(i as int),
            decreases samples@.len() - i,
        {
            pool.push(samples[i]);
            proof { assert(samples@.take(i + 1) =~= samples@.take(i as int).push(samples@[i as int])); }
            i = i + 1;
        }
        proof { assert(samples@.take(samples@.len() as int) =~= samples@); }
        k = k + 1;
    }
    pool
}

/// The plotted values of every instance, tagged with the instance's position, and
/// the instances' index paths.
pub fn histogram_samples(instances: &Vec<NodeInstanceSamples>) -> (result: (Vec<HistogramSample>, Vec<Vec<usize>>))
    ensures
        result.0@ == plotted_upto(instances@, instances@.len() as int),
        result.1@.len() == instances@.len(),
        forall|k: int| 0 <= k < instances@.len() ==> (#[trigger] result.1@[k])@ == instances@[k].indices@,
{
    let mut samples: Vec<HistogramSample> = Vec::new();
    let mut paths: Vec<Vec<usize>> = Vec::new();
    let mut k: usize = 0;
    while k < instances.len()
        invariant
            k <= instances@.len(),
            samples@ == plotted_upto(instances@, k as int),
            paths@.len() == k,
            forall|q: int| 0 <= q < k ==> (#[trigger] paths@[q])@ == instances@[q].indices@,
        decreases instances@.len() - k,
    {
        let ghost before = samples@;
        let list = &instances[k].samples;
        let mut i: usize = 0;
        while i < list.len()
            invariant
                i <= list@.len(),
                samples@ == before + plotted(list@, k as int).take(i as int),
            decreases list@.len() - i,
        {
            samples.push(HistogramSample { instance: k, draw_index: list[i].draw_index, value: list[i].value });
            proof {
                assert(plotted(list@, k as int).take(i + 1) =~= plotted(list@, k as int).take(i as int).push(
                    HistogramSample { instance: k, draw_index: list@[i as int].draw_index, value: list@[i as int].value }));
            }
            i = i + 1;
        }
        proof { assert(plotted(list@, k as int).take(list@.len() as int) =~= plotted(list@, k as int)); }
        paths.push(crate::util::copy_usizes(&instances[k].indices));
        k = k + 1;
    }
    (samples, paths)
}

/// The samples a histogram shows: the one instance as it is, or all instances
/// pooled under an empty index path.
pub fn displayed_instance_samples(instances: &Vec<NodeInstanceSamples>) -> (result: (NodeInstanceSamples, HistogramScope))
    ensures
        instances@.len() == 1 ==> {
            &&& result.0.indices@ == instances@[0].indices@
            &&& result.0.samples@ == instances@[0].samples@
            &&& result.1 matches HistogramScope::Instance(path) && path@ == instances@[0].indices@
        },
        instances@.len() != 1 ==> {
            &&& result.0.indices@.len() == 0
            &&& result.0.samples@ == pooled(instances@, instances@.len() as int)
            &&& result.1 == HistogramScope::Pooled { instance_count: instances@.len() as usize }
        },
{
    if instances.len() == 1 {
        let only = &instances[0];
        (
            NodeInstanceSamples { indices: crate::util::copy_usizes(&only.indices), samples: copy_samples(&only.samples) },
            HistogramScope::Instance(crate::util::copy_usizes(&only.indices)),
        )
    } else {
        (
            NodeInstanceSamples { indices: Vec::new(), samples: pool_instance_samples(instances) },
            HistogramScope::Pooled { instance_count: instances.len() },
        )
    }
}

/// The position of the first occurrence of `x` in `s`, if any.
pub open spec fn first_position(s: Seq<u32>, x: u32) -> Option<int> {
    if s.contains(x) {
        Some(choose|p: int| 0 <= p < s.len() && s[p] == x && forall|q: int| 0 <= q < p ==> s[q] != x)
    } else {
        None
    }
}

/// For each plate of `source` that `target` also has, in source order: its
/// position in both lists, up to the first `end` source plates.
pub open spec fn shared_positions(source: Seq<u32>, target: Seq<u32>, end: int) -> Seq<(usize, usize)>
    decreases end,
{
    if end <= 0 {
        Seq::empty()
    } else {
        let before = shared_positions(source, target, end - 1);
        match first_position(target, source[end - 1]) {
            Some(t) => before.push(((end - 1) as usize, t as usize)),
            None => before,
        }
    }
}

/// The position of the first occurrence of `x`.
fn position_of_id(s: &Vec<u32>, x: u32) -> (pos: Option<usize>)
    ensures
        pos matches Some(p) ==> first_position(s@, x) == Some(p as int) && p < s@.len(),
        pos is None ==> first_position(s@, x) is None,
{
    let mut p: usize = 0;
    while p < s.len()
        invariant
            p <= s@.len(),
            forall|q: int| 0 <= q < p ==> s@[q] != x,
        decreases s@.len() - p,
    {
        if s[p] == x {
            proof {
                let c = choose|c: int| 0 <= c < s@.len() && s@[c] == x && forall|q: int| 0 <= q < c ==> s@[q] != x;
                if c < p { assert(s@[c] != x); }
                if p < c { assert(s@[p as int] != x); }
            }
            return Some(p);
        }
        p = p + 1;
    }
    None
}

/// The plates the two paths share, as pairs of positions in `source` and `target`.
pub fn shared_plate_positions(source: &Vec<u32>, target: &Vec<u32>) -> (shared: Vec<(usize, usize)>)
    ensures
        shared@ == shared_positions(source@, target@, source@.len() as int),
        forall|k: int| 0 <= k < shared@.len() ==> (#[trigger] shared@[k]).0 < source@.len() && shared@[k].1 < target@.len(),
{
    let mut shared: Vec<(usize, usize)> = Vec::new();
    let mut s: usize = 0;
    while s < source.len()
        invariant
            s <= source@.len(),
            shared@ == shared_positions(source@, target@, s as int),
            forall|k: int| 0 <= k < shared@.len() ==> (#[trigger] shared@[k]).0 < source@.len() && shared@[k].1 < target@.len(),
        decreases source@.len() - s,
    {
        match position_of_id(target, source[s]) {
            Some(t) => {
                shared.push((s, t));
            },
            None => {},
        }
        s = s + 1;
    }
    shared
}

/// Every shared source position, or every shared target position, indexes `path`.
pub open spec fn projectable(path: Seq<usize>, shared: Seq<(usize, usize)>, use_source_positions: bool) -> bool {
    forall|k: int| 0 <= k < shared.len() ==> (if use_source_positions { (#[trigger] shared[k]).0 } else { shared[k].1 }) < path.len()
}

/// The entries of `path` at the shared positions of one side.
pub open spec fn projection(path: Seq<usize>, shared: Seq<(usize, usize)>, use_source_positions: bool) -> Seq<usize> {
    shared.map_values(|p: (usize, usize)| path[if use_source_positions { p.0 as int } else { p.1 as int }])
}

/// The entries of `path` at the shared positions of the source side, or of the
/// target side.
pub fn project_context_path(path: &Vec<usize>, shared: &Vec<(usize, usize)>, use_source_positions: bool) -> (projected: Vec<usize>)
    requires
        projectable(path@, shared@, use_source_positions),
    ensures
        projected@ == projection(path@, shared@, use_source_positions),
{
    let mut projected: Vec<usize> = Vec::new();
    let mut k: usize = 0;
    while k < shared.len()
        invariant
            k <= shared@.len(),
            projectable(path@, shared@, use_source_positions),
            projected@ == projection(path@, shared@, use_source_positions).take(k as int),
        decreases shared@.len() - k,
    {
        let (source, target) = shared[k];
        let position = if use_source_positions { source } else { target };
        proof { assert((if use_source_positions { shared@[k as int].0 } else { shared@[k as int].1 }) < path@.len()); }
        projected.push(path[position]);
        proof {
            assert(projection(path@, shared@, use_source_positions).take(k + 1)
                =~= projection(path@, shared@, use_source_positions).take(k as int).push(path@[position as int]));
        }
        k = k + 1;
    }
    assert(projection(path@, shared@, use_source_positions).take(shared@.len() as int) =~= projection(path@, shared@, use_source_positions));
    projected
}

/// The label of a node followed by `[i]` for each index of an instance.
pub open spec fn instance_label_text(node_label: Seq<char>, indices: Seq<usize>, end: int) -> Seq<char>
    decreases end,
{
    if end <= 0 {
        node_label
    } else {
        instance_label_text(node_label, indices, end - 1) + "["@ + decimal(indices[end - 1] as nat) + "]"@
    }
}

/// A node's label followed by the instance's indices, such as `theta[0][2]`.
pub fn format_instance_label(node_label: &str, indices: &Vec<usize>) -> (label: String)
    ensures
        label@ == instance_label_text(node_label@, indices@, indices@.len() as int),
{
    let mut label = String::new();
    push_str(&mut label, node_label);
    proof { reveal_strlit("["); reveal_strlit("]"); }
    let mut i: usize = 0;
    while i < indices.len()
        invariant
            i <= indices@.len(),
            label@ == instance_label_text(node_label@, indices@, i as int),
        decreases indices@.len() - i,
    {
        push_str(&mut label, "[");
        push_decimal(&mut label, indices[i] as u64);
        push_str(&mut label, "]");
        i = i + 1;
    }
    label
}

/// The order key of a binary64 number given by its bit pattern: keys compare as
/// the numbers they stand for, and both zeros get the key 0.
pub open spec fn number_key_spec(bits: u64) -> i64 {
    if bits >= 0x8000_0000_0000_0000u64 {
        (0 - (bits - 0x8000_0000_0000_0000u64)) as i64
    } else {
        bits as i64
    }
}

/// The order key of a binary64 number given by its bit pattern.
pub fn number_key(bits: u64) -> (key: i64)
    ensures
        key == number_key_spec(bits),
{
    if bits >= 0x8000_0000_0000_0000u64 {
        let magnitude: u64 = bits - 0x8000_0000_0000_0000u64;
        0i64 - (magnitude as i64)
    } else {
        bits as i64
    }
}

/// The draws selected in one instance, given by its index path.
#[derive(Debug, PartialEq, Eq)]
pub struct InstanceDraws {
    pub path: Vec<usize>,
    pub draws: Vec<usize>,
}

/// A value lies in the closed range from `lower` to `upper`.
pub open spec fn in_range(value: u64, lower: u64, upper: u64) -> bool {
    number_key_spec(lower) <= number_key_spec(value) <= number_key_spec(upper)
}

/// The paths are distinct, and so are the draws listed for each.
pub open spec fn draws_ok(entries: Seq<InstanceDraws>) -> bool {
    &&& forall|a: int, b: int| 0 <= a < b < entries.len() ==> (#[trigger] entries[a]).path@ != (#[trigger] entries[b]).path@
    &&& forall|a: int| 0 <= a < entries.len() ==> (#[trigger] entries[a]).draws@.no_duplicates()
}

/// Draw `d` of the instance at `path` is among the brushed samples.
pub open spec fn brushed(samples: Seq<HistogramSample>, paths: Seq<Vec<usize>>, lower: u64, upper: u64, path: Seq<usize>, d: usize) -> bool {
    exists|k: int| 0 <= k < samples.len() && #[trigger] in_range(samples[k].value, lower, upper)
        && paths[samples[k].instance as int]@ == path && samples[k].draw_index == d
}

/// The position of the entry for `path`, if any.
pub(crate) fn find_entry(entries: &Vec<InstanceDraws>, path: &Vec<usize>) -> (pos: Option<usize>)
    ensures
        pos matches Some(p) ==> p < entries@.len() && entries@[p as int].path@ == path@,
        pos is None ==> forall|a: int| 0 <= a < entries@.len() ==> (#[trigger] entries@[a]).path@ != path@,
{
    let mut p: usize = 0;
    while p < entries.len()
        invariant
            p <= entries@.len(),
            forall|a: int| 0 <= a < p ==> (#[trigger] entries@[a]).path@ != path@,
        decreases entries@.len() - p,
    {
        if crate::instance_plan::same_indices(&entries[p].path, path) {
            return Some(p);
        }
        p = p + 1;
    }
    None
}

/// The draws each instance has inside the brushed value range, `lower` to
/// `upper` with both ends included; instances appear in the order they are first met.
pub fn selected_instances(samples: &Vec<HistogramSample>, paths: &Vec<Vec<usize>>, lower: u64, upper: u64) -> (selected: Vec<InstanceDraws>)
    requires
        forall|k: int| 0 <= k < samples@.len() ==> (#[trigger] samples@[k]).instance < paths@.len(),
    ensures
        draws_ok(selected@),
        forall|a: int| 0 <= a < selected@.len() ==> (#[trigger] selected@[a]).draws@.len() > 0,
        forall|a: int, d: usize| #![trigger selected@[a].draws@.contains(d)] #![trigger brushed(samples@, paths@, lower, upper, selected@[a].path@, d)] 0 <= a < selected@.len() ==> (selected@[a].draws@.contains(d) <==> brushed(samples@, paths@, lower, upper, selected@[a].path@, d)),
        forall|path: Seq<usize>, d: usize| #[trigger] brushed(samples@, paths@, lower, upper, path, d)
            ==> exists|a: int| 0 <= a < selected@.len() && (#[trigger] selected@[a]).path@ == path,
{
    let lo = number_key(lower);
    let hi = number_key(upper);
    let mut selected: Vec<InstanceDraws> = Vec::new();
    let mut k: usize = 0;
    while k < samples.len()
        invariant
            k <= samples@.len(),
            lo == number_key_spec(lower),
            hi == number_key_spec(upper),
            forall|q: int| 0 <= q < samples@.len() ==> (#[trigger] samples@[q]).instance < paths@.len(),
            draws_ok(selected@),
            forall|a: int| 0 <= a < selected@.len() ==> (#[trigger] selected@[a]).draws@.len() > 0,
            forall|a: int, d: usize| #![trigger selected@[a].draws@.contains(d)] #![trigger brushed(samples@.take(k as int), paths@, lower, upper, selected@[a].path@, d)]
            0 <= a < selected@.len() ==> (selected@[a].draws@.contains(d) <==> brushed(samples@.take(k as int), paths@, lower, upper, selected@[a].path@, d)),
            forall|path: Seq<usize>, d: usize| #[trigger] brushed(samples@.take(k as int), paths@, lower, upper, path, d)
                ==> exists|a: int| 0 <= a < selected@.len() && (#[trigger] selected@[a]).path@ == path,
        decreases samples@.len() - k,
    {
        let sample = samples[k];
        let ghost before = selected@;
        let ghost taken = samples@.take(k as int);
        let ghost next = samples@.take(k + 1);
        proof { assert(next =~= taken.push(sample)); }
        let key = number_key(sample.value);
        if lo <= key && key <= hi {
            let path = &paths[sample.instance];
            match find_entry(&selected, path) {
                Some(p) => {
                    let mut entry = selected.remove(p);
                    if !crate::util::contains_usize(&entry.draws, sample.draw_index) {
                        entry.draws.push(sample.draw_index);
                    }
                    selected.insert(p, entry);
                },
                None => {
                    let mut draws: Vec<usize> = Vec::new();
                    draws.push(sample.draw_index);
                    selected.push(InstanceDraws { path: crate::util::copy_usizes(path), draws });
                },
            }
            proof { lemma_brush_step(samples@, paths@, lower, upper, k as int, before, selected@); }
        } else {
            proof {
                assert forall|path: Seq<usize>, d: usize| brushed(next, paths@, lower, upper, path, d)
                    == brushed(taken, paths@, lower, upper, path, d) by {
                    if brushed(next, paths@, lower, upper, path, d) {
                        let q = choose|q: int| 0 <= q < next.len() && #[trigger] in_range(next[q].value, lower, upper)
                            && paths@[next[q].instance as int]@ == path && next[q].draw_index == d;
                        assert(q < k);
                        assert(next[q] == taken[q]);
                    }
                    if brushed(taken, paths@, lower, upper, path, d) {
                        let q = choose|q: int| 0 <= q < taken.len() && #[trigger] in_range(taken[q].value, lower, upper)
                            && paths@[taken[q].instance as int]@ == path && taken[q].draw_index == d;
                        assert(next[q] == taken[q]);
                    }
                }
            }
        }
        k = k + 1;
    }
    proof { assert(samples@.take(samples@.len() as int) =~= samples@); }
    selected
}

/// Adding brushed sample `k` to the selection of the samples before it.
#[verifier::rlimit(40)]
proof fn lemma_brush_step(
    samples: Seq<HistogramSample>,
    paths: Seq<Vec<usize>>,
    lower: u64,
    upper: u64,
    k: int,
    before: Seq<InstanceDraws>,
    after: Seq<InstanceDraws>,
)
    requires
        0 <= k < samples.len(),
        samples[k].instance < paths.len(),
        in_range(samples[k].value, lower, upper),
        draws_ok(before),
        forall|a: int| 0 <= a < before.len() ==> (#[trigger] before[a]).draws@.len() > 0,
        forall|a: int, d: usize| #![trigger before[a].draws@.contains(d)] #![trigger brushed(samples.take(k), paths, lower, upper, before[a].path@, d)]
            0 <= a < before.len() ==> (before[a].draws@.contains(d) <==> brushed(samples.take(k), paths, lower, upper, before[a].path@, d)),
        forall|path: Seq<usize>, d: usize| #[trigger] brushed(samples.take(k), paths, lower, upper, path, d)
            ==> exists|a: int| 0 <= a < before.len() && (#[trigger] before[a]).path@ == path,
        ({
            let path = paths[samples[k].instance as int]@;
            let d = samples[k].draw_index;
            ||| exists|p: int| 0 <= p < before.len() && before[p].path@ == path && after.len() == before.len()
                && (forall|a: int| 0 <= a < before.len() && a != p ==> after[a] == before[a])
                && after[p].path@ == path
                && (after[p].draws@ == if before[p].draws@.contains(d) { before[p].draws@ } else { before[p].draws@.push(d) })
            ||| (forall|a: int| 0 <= a < before.len() ==> (#[trigger] before[a]).path@ != path) && after.len() == before.len() + 1
                && (forall|a: int| 0 <= a < before.len() ==> after[a] == before[a])
                && after[before.len() as int].path@ == path && after[before.len() as int].draws@ == seq![d]
        }),
    ensures
        draws_ok(after),
        forall|a: int| 0 <= a < after.len() ==> (#[trigger] after[a]).draws@.len() > 0,
        forall|a: int, d: usize| #![trigger after[a].draws@.contains(d)] #![trigger brushed(samples.take(k + 1), paths, lower, upper, after[a].path@, d)]
            0 <= a < after.len() ==> (after[a].draws@.contains(d) <==> brushed(samples.take(k + 1), paths, lower, upper, after[a].path@, d)),
        forall|path: Seq<usize>, d: usize| #[trigger] brushed(samples.take(k + 1), paths, lower, upper, path, d)
            ==> exists|a: int| 0 <= a < after.len() && (#[trigger] after[a]).path@ == path,
{
    let taken = samples.take(k);
    let next = samples.take(k + 1);
    assert(next =~= taken.push(samples[k]));
    let path0 = paths[samples[k].instance as int]@;
    let d0 = samples[k].draw_index;
    assert forall|path: Seq<usize>, d: usize| brushed(next, paths, lower, upper, path, d)
        <==> (brushed(taken, paths, lower, upper, path, d) || (path == path0 && d == d0)) by {
        if brushed(next, paths, lower, upper, path, d) {
            let q = choose|q: int| 0 <= q < next.len() && #[trigger] in_range(next[q].value, lower, upper)
                && paths[next[q].instance as int]@ == path && next[q].draw_index == d;
            if q < k {
                assert(next[q] == taken[q]);
            }
        }
        if brushed(taken, paths, lower, upper, path, d) {
            let q = choose|q: int| 0 <= q < taken.len() && #[trigger] in_range(taken[q].value, lower, upper)
                && paths[taken[q].instance as int]@ == path && taken[q].draw_index == d;
            assert(next[q] == taken[q]);
        }
        if path == path0 && d == d0 {
            assert(next[k] == samples[k]);
            assert(in_range(next[k].value, lower, upper));
        }
    }
}

/// A selection made in another view: the plates of its context, the index paths
/// of the context's instances, and the draws selected in each instance.
#[derive(Debug)]
pub struct SelectionContext {
    pub context_plate_ids: Vec<u32>,
    pub context_instance_paths: Vec<Vec<usize>>,
    pub draws_by_instance: Vec<InstanceDraws>,
}

/// Every path of the selection has an index for each context plate (more are
/// ignored), each path is listed once, and so is each draw selected at it: the
/// entries stand for a map from paths to sets of draws.
pub open spec fn selection_ok(sel: SelectionContext) -> bool {
    &&& draws_ok(sel.draws_by_instance@)
    &&& forall|a: int| 0 <= a < sel.draws_by_instance@.len()
        ==> (#[trigger] sel.draws_by_instance@[a]).path@.len() >= sel.context_plate_ids@.len()
    &&& forall|a: int| 0 <= a < sel.context_instance_paths@.len()
        ==> (#[trigger] sel.context_instance_paths@[a])@.len() >= sel.context_plate_ids@.len()
}

/// The positions the selection's context shares with the plates `plate_ids`.
pub open spec fn shared_with(sel: SelectionContext, plate_ids: Seq<u32>) -> Seq<(usize, usize)> {
    shared_positions(sel.context_plate_ids@, plate_ids, sel.context_plate_ids@.len() as int)
}

/// The selection holds draw `d` in an instance that agrees with `context_path` on
/// every shared plate.
pub open spec fn selects(sel: SelectionContext, plate_ids: Seq<u32>, context_path: Seq<usize>, d: usize) -> bool {
    exists|a: int| 0 <= a < sel.draws_by_instance@.len() && (#[trigger] sel.draws_by_instance@[a]).draws@.contains(d)
        && projection(sel.draws_by_instance@[a].path@, shared_with(sel, plate_ids), true)
            == projection(context_path, shared_with(sel, plate_ids), false)
}

/// Whether one selection holds the draw in a matching instance.
fn selection_selects(sel: &SelectionContext, context_plate_ids: &Vec<u32>, context_path: &Vec<usize>, draw_index: usize) -> (r: bool)
    requires
        selection_ok(*sel),
        context_path@.len() == context_plate_ids@.len(),
    ensures
        r == selects(*sel, context_plate_ids@, context_path@, draw_index),
{
    let shared = shared_plate_positions(&sel.context_plate_ids, context_plate_ids);
    let target_key = project_context_path(context_path, &shared, false);
    let entries = &sel.draws_by_instance;
    let mut a: usize = 0;
    while a < entries.len()
        invariant
            a <= entries@.len(),
            *entries == sel.draws_by_instance,
            selection_ok(*sel),
            shared@ == shared_with(*sel, context_plate_ids@),
            target_key@ == projection(context_path@, shared@, false),
            forall|k: int| 0 <= k < shared@.len() ==> (#[trigger] shared@[k]).0 < sel.context_plate_ids@.len(),
            forall|q: int| 0 <= q < a ==> !((#[trigger] entries@[q]).draws@.contains(draw_index)
                && projection(entries@[q].path@, shared@, true) == target_key@),
        decreases entries@.len() - a,
    {
        let entry = &entries[a];
        if crate::util::contains_usize(&entry.draws, draw_index) {
            proof { assert(entry.path@.len() >= sel.context_plate_ids@.len()); }
            let key = project_context_path(&entry.path, &shared, true);
            if crate::instance_plan::same_indices(&key, &target_key) {
                return true;
            }
        }
        a = a + 1;
    }
    false
}

/// Whether any of the selections holds draw `draw_index` in an instance that
/// agrees with `context_path`, an instance of the plates `context_plate_ids`, on
/// the plates they share.
pub fn sample_is_selected(
    context_plate_ids: &Vec<u32>,
    context_path: &Vec<usize>,
    draw_index: usize,
    selections: Option<&Vec<SelectionContext>>,
) -> (r: bool)
    requires
        context_path@.len() == context_plate_ids@.len(),
        selections matches Some(s) ==> forall|i: int| 0 <= i < s@.len() ==> selection_ok(#[trigger] s@[i]),
    ensures
        r == (selections is Some && exists|i: int| 0 <= i < selections.unwrap()@.len()
            && #[trigger] selects(selections.unwrap()@[i], context_plate_ids@, context_path@, draw_index)),
{
    match selections {
        None => false,
        Some(list) => {
            let mut i: usize = 0;
            while i < list.len()
                invariant
                    i <= list@.len(),
                    selections == Some(list),
                    context_path@.len() == context_plate_ids@.len(),
                    forall|q: int| 0 <= q < list@.len() ==> selection_ok(#[trigger] list@[q]),
                    forall|q: int| 0 <= q < i ==> !#[trigger] selects(list@[q], context_plate_ids@, context_path@, draw_index),
                decreases list@.len() - i,
            {
                if selection_selects(&list[i], context_plate_ids, context_path, draw_index) {
                    proof {
                        assert(selects(list@[i as int], context_plate_ids@, context_path@, draw_index));
                        assert(selections.unwrap() == list);
                        assert(selections.unwrap()@[i as int] == list@[i as int]);
                        assert(selects(selections.unwrap()@[i as int], context_plate_ids@, context_path@, draw_index));
                    }
                    return true;
                }
                i = i + 1;
            }
            false
        },
    }
}

/// A weight given as a fraction.
#[derive(Clone, Copy, Debug, PartialEq, Eq, Structural)]
pub struct Weight {
    pub num: u64,
    pub den: u64,
}

/// Of the first `end` paths, how many project onto `key` through the shared
/// source positions.
pub open spec fn prefix_count(paths: Seq<Vec<usize>>, shared: Seq<(usize, usize)>, key: Seq<usize>, end: int) -> nat
    decreases end,
{
    if end <= 0 {
        0
    } else {
        prefix_count(paths, shared, key, end - 1) + if projection(paths[end - 1]@, shared, true) == key { 1nat } else { 0nat }
    }
}

/// Of the first `end` entries, how many project onto `key` and hold draw `d`.
pub open spec fn selected_count(entries: Seq<InstanceDraws>, shared: Seq<(usize, usize)>, key: Seq<usize>, d: usize, end: int) -> nat
    decreases end,
{
    if end <= 0 {
        0
    } else {
        selected_count(entries, shared, key, d, end - 1) + if projection(entries[end - 1].path@, shared, true) == key
            && entries[end - 1].draws@.contains(d) { 1nat } else { 0nat }
    }
}

/// The weight a selection gives draw `d` of target instances that project onto
/// `key`: the share of the context instances with that projection that select the
/// draw, if any does.
pub open spec fn weight_for(paths: Seq<Vec<usize>>, entries: Seq<InstanceDraws>, shared: Seq<(usize, usize)>, key: Seq<usize>, d: usize) -> Option<Weight> {
    let selected = selected_count(entries, shared, key, d, entries.len() as int);
    if selected == 0 {
        None
    } else {
        Some(Weight { num: selected as u64, den: prefix_count(paths, shared, key, paths.len() as int) as u64 })
    }
}

/// Every path of the selection indexes each shared source position, and every
/// selected path projects like some context path.
pub open spec fn weights_defined(paths: Seq<Vec<usize>>, entries: Seq<InstanceDraws>, shared: Seq<(usize, usize)>) -> bool {
    &&& forall|a: int| 0 <= a < paths.len() ==> projectable((#[trigger] paths[a])@, shared, true)
    &&& forall|a: int| 0 <= a < entries.len() ==> projectable((#[trigger] entries[a]).path@, shared, true)
    &&& forall|a: int| 0 <= a < entries.len() ==> covered(paths, shared, (#[trigger] entries[a]).path@)
}

/// Some path projects like `path` through the shared source positions.
pub open spec fn covered(paths: Seq<Vec<usize>>, shared: Seq<(usize, usize)>, path: Seq<usize>) -> bool {
    exists|b: int| 0 <= b < paths.len() && projection(paths[b]@, shared, true) == projection(path, shared, true)
}

/// How many of the paths project onto `key`.
fn count_prefix(paths: &Vec<Vec<usize>>, shared: &Vec<(usize, usize)>, key: &Vec<usize>) -> (count: u64)
    requires
        forall|a: int| 0 <= a < paths@.len() ==> projectable((#[trigger] paths@[a])@, shared@, true),
    ensures
        count == prefix_count(paths@, shared@, key@, paths@.len() as int),
{
    let mut count: u64 = 0;
    let mut a: usize = 0;
    while a < paths.len()
        invariant
            a <= paths@.len(),
            forall|q: int| 0 <= q < paths@.len() ==> projectable((#[trigger] paths@[q])@, shared@, true),
            count == prefix_count(paths@, shared@, key@, a as int),
            count <= a,
        decreases paths@.len() - a,
    {
        let projected = project_context_path(&paths[a], shared, true);
        if crate::instance_plan::same_indices(&projected, key) {
            count = count + 1;
        }
        a = a + 1;
    }
    count
}

/// How many entries project onto `key` and hold draw `d`.
fn count_selected(entries: &Vec<InstanceDraws>, shared: &Vec<(usize, usize)>, key: &Vec<usize>, d: usize) -> (count: u64)
    requires
        forall|a: int| 0 <= a < entries@.len() ==> projectable((#[trigger] entries@[a]).path@, shared@, true),
    ensures
        count == selected_count(entries@, shared@, key@, d, entries@.len() as int),
{
    let mut count: u64 = 0;
    let mut a: usize = 0;
    while a < entries.len()
        invariant
            a <= entries@.len(),
            forall|q: int| 0 <= q < entries@.len() ==> projectable((#[trigger] entries@[q]).path@, shared@, true),
            count == selected_count(entries@, shared@, key@, d, a as int),
            count <= a,
        decreases entries@.len() - a,
    {
        let projected = project_context_path(&entries[a].path, shared, true);
        if crate::instance_plan::same_indices(&projected, key) && crate::util::contains_usize(&entries[a].draws, d) {
            count = count + 1;
        }
        a = a + 1;
    }
    count
}

/// The weight a selection gives draw `d` of target instances projecting onto `key`.
pub(crate) fn draw_weight(paths: &Vec<Vec<usize>>, entries: &Vec<InstanceDraws>, shared: &Vec<(usize, usize)>, key: &Vec<usize>, d: usize)
    -> (w: Option<Weight>)
    requires
        weights_defined(paths@, entries@, shared@),
    ensures
        w == weight_for(paths@, entries@, shared@, key@, d),
        w matches Some(x) ==> 0 < x.num && 0 < x.den,
{
    let selected = count_selected(entries, shared, key, d);
    if selected == 0 {
        return None;
    }
    let total = count_prefix(paths, shared, key);
    proof {
        lemma_selected_has_entry(entries@, shared@, key@, d, entries@.len() as int);
        let a = choose|a: int| 0 <= a < entries@.len() && projection(entries@[a].path@, shared@, true) == key@
            && entries@[a].draws@.contains(d);
        assert(covered(paths@, shared@, entries@[a].path@));
        let b = choose|b: int| 0 <= b < paths@.len() && projection(paths@[b]@, shared@, true) == projection(entries@[a].path@, shared@, true);
        lemma_prefix_count_positive(paths@, shared@, key@, paths@.len() as int, b);
    }
    Some(Weight { num: selected, den: total })
}

/// At most `end` of the first `end` paths project onto any key.
pub(crate) proof fn lemma_prefix_count_le(paths: Seq<Vec<usize>>, shared: Seq<(usize, usize)>, key: Seq<usize>, end: int)
    ensures
        prefix_count(paths, shared, key, end) <= if end < 0 { 0 } else { end },
    decreases end,
{
    if end > 0 {
        lemma_prefix_count_le(paths, shared, key, end - 1);
    }
}

pub(crate) proof fn lemma_selected_has_entry(entries: Seq<InstanceDraws>, shared: Seq<(usize, usize)>, key: Seq<usize>, d: usize, end: int)
    requires
        0 <= end <= entries.len(),
        selected_count(entries, shared, key, d, end) > 0,
    ensures
        exists|a: int| 0 <= a < end && projection(entries[a].path@, shared, true) == key && entries[a].draws@.contains(d),
    decreases end,
{
    if selected_count(entries, shared, key, d, end - 1) > 0 {
        lemma_selected_has_entry(entries, shared, key, d, end - 1);
    }
}

pub(crate) proof fn lemma_prefix_count_positive(paths: Seq<Vec<usize>>, shared: Seq<(usize, usize)>, key: Seq<usize>, end: int, b: int)
    requires
        0 <= b < end <= paths.len(),
        projection(paths[b]@, shared, true) == key,
    ensures
        prefix_count(paths, shared, key, end) > 0,
    decreases end,
{
    if b < end - 1 {
        lemma_prefix_count_positive(paths, shared, key, end - 1, b);
    }
}

/// The weight a selection gives one draw of one target instance.
#[derive(Debug)]
pub struct DrawWeight {
    pub indices: Vec<usize>,
    pub draw_index: usize,
    pub weight: Weight,
}

/// The instance path, draw and weight of each entry.
pub open spec fn weight_view(ws: Seq<DrawWeight>) -> Seq<(Seq<usize>, usize, Weight)> {
    ws.map_values(|w: DrawWeight| (w.indices@, w.draw_index, w.weight))
}

/// The weighted draws among the first `end` samples of an instance at `indices`.
pub open spec fn instance_draw_weights(
    paths: Seq<Vec<usize>>,
    entries: Seq<InstanceDraws>,
    shared: Seq<(usize, usize)>,
    indices: Seq<usize>,
    samples: Seq<PosteriorSample>,
    end: int,
) -> Seq<(Seq<usize>, usize, Weight)>
    decreases end,
{
    if end <= 0 {
        Seq::empty()
    } else {
        let before = instance_draw_weights(paths, entries, shared, indices, samples, end - 1);
        match weight_for(paths, entries, shared, projection(indices, shared, false), samples[end - 1].draw_index) {
            Some(w) => before.push((indices, samples[end - 1].draw_index, w)),
            None => before,
        }
    }
}

/// The weighted draws of the first `end` instances.
pub open spec fn all_draw_weights(
    paths: Seq<Vec<usize>>,
    entries: Seq<InstanceDraws>,
    shared: Seq<(usize, usize)>,
    instances: Seq<NodeInstanceSamples>,
    end: int,
) -> Seq<(Seq<usize>, usize, Weight)>
    decreases end,
{
    if end <= 0 {
        Seq::empty()
    } else {
        all_draw_weights(paths, entries, shared, instances, end - 1) + instance_draw_weights(paths, entries, shared,
            instances[end - 1].indices@, instances[end - 1].samples@, instances[end - 1].samples@.len() as int)
    }
}

/// Every selected path agrees, on the plates its context shares with the target
/// plates, with some instance path of the context.
pub open spec fn selection_covered(sel: SelectionContext, target_plate_ids: Seq<u32>) -> bool {
    forall|a: int| 0 <= a < sel.draws_by_instance@.len() ==> covered(sel.context_instance_paths@,
        shared_with(sel, target_plate_ids), (#[trigger] sel.draws_by_instance@[a]).path@)
}

/// Every instance has one index per target plate.
pub open spec fn instances_shaped(instances: Seq<NodeInstanceSamples>, plate_ids: Seq<u32>) -> bool {
    forall|k: int| 0 <= k < instances.len() ==> (#[trigger] instances[k]).indices@.len() == plate_ids.len()
}

/// The weights a selection gives the draws of the target instances: a target
/// instance is matched with the context instances that agree with it on the
/// plates both share, and a draw weighs the share of those context instances
/// that selected it. Draws without weight are left out.
pub fn selection_weights(instances: &Vec<NodeInstanceSamples>, selection: &SelectionContext, target_plate_ids: &Vec<u32>)
    -> (weights: Vec<DrawWeight>)
    requires
        selection_ok(*selection),
        selection_covered(*selection, target_plate_ids@),
        instances_shaped(instances@, target_plate_ids@),
    ensures
        weight_view(weights@) == all_draw_weights(selection.context_instance_paths@, selection.draws_by_instance@,
            shared_with(*selection, target_plate_ids@), instances@, instances@.len() as int),
        forall|k: int| 0 <= k < weights@.len() ==> 0 < (#[trigger] weights@[k]).weight.num && 0 < weights@[k].weight.den,
{
    let shared = shared_plate_positions(&selection.context_plate_ids, target_plate_ids);
    let ghost paths = selection.context_instance_paths@;
    let ghost entries = selection.draws_by_instance@;
    proof {
        assert forall|a: int| 0 <= a < paths.len() implies projectable((#[trigger] paths[a])@, shared@, true) by {
            assert(paths[a]@.len() >= selection.context_plate_ids@.len());
        }
        assert forall|a: int| 0 <= a < entries.len() implies projectable((#[trigger] entries[a]).path@, shared@, true) by {
            assert(entries[a].path@.len() >= selection.context_plate_ids@.len());
        }
        assert(weights_defined(paths, entries, shared@));
    }
    let mut weights: Vec<DrawWeight> = Vec::new();
    let mut k: usize = 0;
    while k < instances.len()
        invariant
            k <= instances@.len(),
            paths == selection.context_instance_paths@,
            entries == selection.draws_by_instance@,
            shared@ == shared_with(*selection, target_plate_ids@),
            forall|q: int| 0 <= q < shared@.len() ==> (#[trigger] shared@[q]).1 < target_plate_ids@.len(),
            weights_defined(paths, entries, shared@),
            instances_shaped(instances@, target_plate_ids@),
            weight_view(weights@) == all_draw_weights(paths, entries, shared@, instances@, k as int),
            forall|q: int| 0 <= q < weights@.len() ==> 0 < (#[trigger] weights@[q]).weight.num && 0 < weights@[q].weight.den,
        decreases instances@.len() - k,
    {
        let instance = &instances[k];
        proof { assert(instance.indices@.len() == target_plate_ids@.len()); }
        let key = project_context_path(&instance.indices, &shared, false);
        let ghost before = weight_view(weights@);
        let mut i: usize = 0;
        while i < instance.samples.len()
            invariant
                k < instances@.len(),
                *instance == instances@[k as int],
                i <= instance.samples@.len(),
                weights_defined(paths, entries, shared@),
                paths == selection.context_instance_paths@,
                entries == selection.draws_by_instance@,
                key@ == projection(instance.indices@, shared@, false),
                weight_view(weights@) == before + instance_draw_weights(paths, entries, shared@, instance.indices@, instance.samples@, i as int),
                forall|q: int| 0 <= q < weights@.len() ==> 0 < (#[trigger] weights@[q]).weight.num && 0 < weights@[q].weight.den,
            decreases instance.samples@.len() - i,
        {
            let d = instance.samples[i].draw_index;
            match draw_weight(&selection.context_instance_paths, &selection.draws_by_instance, &shared, &key, d) {
                Some(w) => {
                    let ghost old_view = weight_view(weights@);
                    weights.push(DrawWeight { indices: crate::util::copy_usizes(&instance.indices), draw_index: d, weight: w });
                    proof {
                        assert(weight_view(weights@) =~= old_view.push((instance.indices@, d, w)));
                    }
                },
                None => {},
            }
            i = i + 1;
        }
        k = k + 1;
    }
    weights
}


/// The number of draws listed in the first `end` entries.
pub open spec fn draw_total(entries: Seq<InstanceDraws>, end: int) -> nat
    decreases end,
{
    if end <= 0 { 0 } else { draw_total(entries, end - 1) + entries[end - 1].draws@.len() }
}

/// The number of draws listed in the first `end` selections.
pub open spec fn selections_total(sels: Seq<SelectionContext>, end: int) -> nat
    decreases end,
{
    if end <= 0 { 0 } else { selections_total(sels, end - 1) + draw_total(sels[end - 1].draws_by_instance@, sels[end - 1].draws_by_instance@.len() as int) }
}

proof fn lemma_draw_total_grows(entries: Seq<InstanceDraws>, a: int, b: int)
    requires
        0 <= a <= b <= entries.len(),
    ensures
        draw_total(entries, a) <= draw_total(entries, b),
    decreases b - a,
{
    if a < b {
        lemma_draw_total_grows(entries, a, b - 1);
    }
}

proof fn lemma_selections_total_grows(sels: Seq<SelectionContext>, a: int, b: int)
    requires
        0 <= a <= b <= sels.len(),
    ensures
        selections_total(sels, a) <= selections_total(sels, b),
    decreases b - a,
{
    if a < b {
        lemma_selections_total_grows(sels, a, b - 1);
    }
}

impl SelectionContext {
    /// How many points the selection holds: its selected draws over all instances.
    pub fn point_count(&self) -> (count: usize)
        requires
            draw_total(self.draws_by_instance@, self.draws_by_instance@.len() as int) <= usize::MAX,
        ensures
            count == draw_total(self.draws_by_instance@, self.draws_by_instance@.len() as int),
    {
        let mut count: usize = 0;
        let mut a: usize = 0;
        while a < self.draws_by_instance.len()
            invariant
                a <= self.draws_by_instance@.len(),
                count == draw_total(self.draws_by_instance@, a as int),
                draw_total(self.draws_by_instance@, self.draws_by_instance@.len() as int) <= usize::MAX,
            decreases self.draws_by_instance@.len() - a,
        {
            proof { lemma_draw_total_grows(self.draws_by_instance@, a + 1, self.draws_by_instance@.len() as int); }
            count = count + self.draws_by_instance[a].draws.len();
            a = a + 1;
        }
        count
    }
}

/// How many points all the selections hold together.
pub fn selections_point_count(selections: &Vec<SelectionContext>) -> (count: usize)
    requires
        selections_total(selections@, selections@.len() as int) <= usize::MAX,
    ensures
        count == selections_total(selections@, selections@.len() as int),
{
    let mut count: usize = 0;
    let mut i: usize = 0;
    while i < selections.len()
        invariant
            i <= selections@.len(),
            count == selections_total(selections@, i as int),
            selections_total(selections@, selections@.len() as int) <= usize::MAX,
        decreases selections@.len() - i,
    {
        proof {
            lemma_selections_total_grows(selections@, i + 1, selections@.len() as int);
            lemma_draw_total_grows(selections@[i as int].draws_by_instance@, selections@[i as int].draws_by_instance@.len() as int,
                selections@[i as int].draws_by_instance@.len() as int);
        }
        count = count + selections[i].point_count();
        i = i + 1;
    }
    count
}


/// `path` is one of the paths.
pub open spec fn in_context(paths: Seq<Vec<usize>>, path: Seq<usize>) -> bool {
    exists|b: int| 0 <= b < paths.len() && (#[trigger] paths[b])@ == path
}

/// Every selected path is one of the context's instance paths, and those paths
/// are distinct: what a selection brushed in one view holds.
pub open spec fn entries_from_context(paths: Seq<Vec<usize>>, entries: Seq<InstanceDraws>) -> bool {
    &&& forall|a: int| 0 <= a < entries.len() ==> in_context(paths, (#[trigger] entries[a]).path@)
    &&& forall|b1: int, b2: int| 0 <= b1 < b2 < paths.len() ==> (#[trigger] paths[b1])@ != (#[trigger] paths[b2])@
}

/// The paths of the first `end` entries that project onto `key` and hold draw `d`.
pub open spec fn counted_paths(entries: Seq<InstanceDraws>, shared: Seq<(usize, usize)>, key: Seq<usize>, d: usize, end: int) -> Set<Seq<usize>>
    decreases end,
{
    if end <= 0 {
        Set::empty()
    } else if projection(entries[end - 1].path@, shared, true) == key && entries[end - 1].draws@.contains(d) {
        counted_paths(entries, shared, key, d, end - 1).insert(entries[end - 1].path@)
    } else {
        counted_paths(entries, shared, key, d, end - 1)
    }
}

/// The first `end` paths that project onto `key`.
pub open spec fn keyed_paths(paths: Seq<Vec<usize>>, shared: Seq<(usize, usize)>, key: Seq<usize>, end: int) -> Set<Seq<usize>>
    decreases end,
{
    if end <= 0 {
        Set::empty()
    } else if projection(paths[end - 1]@, shared, true) == key {
        keyed_paths(paths, shared, key, end - 1).insert(paths[end - 1]@)
    } else {
        keyed_paths(paths, shared, key, end - 1)
    }
}

pub(crate) proof fn lemma_counted_paths(entries: Seq<InstanceDraws>, shared: Seq<(usize, usize)>, key: Seq<usize>, d: usize, end: int)
    requires
        0 <= end <= entries.len(),
        draws_ok(entries),
    ensures
        counted_paths(entries, shared, key, d, end).finite(),
        counted_paths(entries, shared, key, d, end).len() == selected_count(entries, shared, key, d, end),
        forall|p: Seq<usize>| #[trigger] counted_paths(entries, shared, key, d, end).contains(p)
            ==> exists|a: int| 0 <= a < end && entries[a].path@ == p && projection(p, shared, true) == key,
        forall|a: int| 0 <= a < end && projection(entries[a].path@, shared, true) == key && entries[a].draws@.contains(d)
            ==> #[trigger] counted_paths(entries, shared, key, d, end).contains(entries[a].path@),
        forall|p: Seq<usize>| #[trigger] counted_paths(entries, shared, key, d, end).contains(p)
            ==> exists|a: int| 0 <= a < end && entries[a].path@ == p && entries[a].draws@.contains(d),
    decreases end,
{
    if end > 0 {
        lemma_counted_paths(entries, shared, key, d, end - 1);
        let prior = counted_paths(entries, shared, key, d, end - 1);
        let p = entries[end - 1].path@;
        if projection(p, shared, true) == key && entries[end - 1].draws@.contains(d) {
            if prior.contains(p) {
                let a = choose|a: int| 0 <= a < end - 1 && entries[a].path@ == p && projection(p, shared, true) == key;
                assert((#[trigger] entries[a]).path@ != (#[trigger] entries[end - 1]).path@);
            }
        }
    }
}

proof fn lemma_keyed_paths(paths: Seq<Vec<usize>>, shared: Seq<(usize, usize)>, key: Seq<usize>, end: int)
    requires
        0 <= end <= paths.len(),
        forall|b1: int, b2: int| 0 <= b1 < b2 < paths.len() ==> (#[trigger] paths[b1])@ != (#[trigger] paths[b2])@,
    ensures
        keyed_paths(paths, shared, key, end).finite(),
        keyed_paths(paths, shared, key, end).len() == prefix_count(paths, shared, key, end),
        forall|b: int| 0 <= b < end && projection(paths[b]@, shared, true) == key
            ==> #[trigger] keyed_paths(paths, shared, key, end).contains(paths[b]@),
        forall|p: Seq<usize>| #[trigger] keyed_paths(paths, shared, key, end).contains(p)
            ==> exists|b: int| 0 <= b < end && paths[b]@ == p,
    decreases end,
{
    if end > 0 {
        lemma_keyed_paths(paths, shared, key, end - 1);
        let prior = keyed_paths(paths, shared, key, end - 1);
        let p = paths[end - 1]@;
        if projection(p, shared, true) == key && prior.contains(p) {
            let b = choose|b: int| 0 <= b < end - 1 && paths[b]@ == p;
            assert((#[trigger] paths[b])@ != (#[trigger] paths[end - 1])@);
        }
    }
}

/// In a selection brushed in its own view, a draw is never selected by more
/// context instances than match the target instance: every weight is at most one.
pub proof fn lemma_weight_at_most_one(
    paths: Seq<Vec<usize>>,
    entries: Seq<InstanceDraws>,
    shared: Seq<(usize, usize)>,
    key: Seq<usize>,
    d: usize,
)
    requires
        draws_ok(entries),
        entries_from_context(paths, entries),
    ensures
        selected_count(entries, shared, key, d, entries.len() as int) <= prefix_count(paths, shared, key, paths.len() as int),
{
    broadcast use vstd::set::group_set_axioms;
    lemma_counted_paths(entries, shared, key, d, entries.len() as int);
    lemma_keyed_paths(paths, shared, key, paths.len() as int);
    let e = counted_paths(entries, shared, key, d, entries.len() as int);
    let k = keyed_paths(paths, shared, key, paths.len() as int);
    assert forall|p: Seq<usize>| e.contains(p) implies k.contains(p) by {
        let a = choose|a: int| 0 <= a < entries.len() && entries[a].path@ == p && projection(p, shared, true) == key;
        let b = choose|b: int| 0 <= b < paths.len() && (#[trigger] paths[b])@ == entries[a].path@;
        assert(k.contains(paths[b]@));
    }
    vstd::set_lib::lemma_len_subset(e, k);
}


/// A selection brushed from a histogram whose instance paths are distinct holds
/// only paths of those instances, so its weights in linked views are at most one.
pub proof fn lemma_brushed_entries_from_context(
    samples: Seq<HistogramSample>,
    paths: Seq<Vec<usize>>,
    lower: u64,
    upper: u64,
    selected: Seq<InstanceDraws>,
)
    requires
        forall|k: int| 0 <= k < samples.len() ==> (#[trigger] samples[k]).instance < paths.len(),
        forall|b1: int, b2: int| 0 <= b1 < b2 < paths.len() ==> (#[trigger] paths[b1])@ != (#[trigger] paths[b2])@,
        forall|a: int| 0 <= a < selected.len() ==> (#[trigger] selected[a]).draws@.len() > 0,
        forall|a: int, d: usize| #![trigger selected[a].draws@.contains(d)] 0 <= a < selected.len()
            ==> (selected[a].draws@.contains(d) <==> brushed(samples, paths, lower, upper, selected[a].path@, d)),
    ensures
        entries_from_context(paths, selected),
{
    assert forall|a: int| 0 <= a < selected.len() implies in_context(paths, (#[trigger] selected[a]).path@) by {
        let d = selected[a].draws@[0];
        assert(selected[a].draws@.contains(d));
        assert(brushed(samples, paths, lower, upper, selected[a].path@, d));
        let k = choose|k: int| 0 <= k < samples.len() && #[trigger] in_range(samples[k].value, lower, upper)
            && paths[samples[k].instance as int]@ == selected[a].path@ && samples[k].draw_index == d;
        let b = samples[k].instance as int;
        assert(0 <= b < paths.len());
        assert(paths[b]@ == selected[a].path@);
    }
}

} // verus!
