//! Values of a model execution in the nested shape of each node's plates.
use crate::graph_ir::GraphIR;
use crate::instance_plan::{has_key, InstanceStep, ModelPlan, NodeShape};
use crate::model_plan::{display_name_text, node_display_name};
use crate::normalize::{normalized_ok, plate_paths, NormalizedPlates};
use crate::plate_validation::plates_well_formed;
use crate::scopes::dependencies_scoped;
use crate::model_plan::{address_text, instance_address};
use crate::text::{push_str};
use std::collections::HashMap;
use vstd::prelude::*;

verus! {

broadcast use {
    vstd::std_specs::hash::group_hash_axioms,
    vstd::seq_lib::group_seq_properties,
    vstd::std_specs::vec::group_vec_axioms,
};

/// The value of a node: a scalar for a node outside plates, one item per row for
/// each enclosing plate otherwise. A scalar is the bit pattern of an IEEE-754
/// binary64 number.
#[derive(Debug, PartialEq)]
pub enum ModelResult {
    Scalar(u64),
    Plate(Vec<ModelResult>),
}

/// `values[k]` is the value of step `k`; `v` is the value of instance `idx` of node `n`.
pub open spec fn instance_value(steps: Seq<InstanceStep>, values: Seq<u64>, n: u32, idx: Seq<usize>, v: u64) -> bool {
    exists|k: int| 0 <= k < steps.len() && (#[trigger] steps[k]).node_id == n && steps[k].indices@ == idx && values[k] == v
}

/// `r` holds the values of node `n` below the instance prefix `idx`, nested
/// along `extents`.
pub open spec fn value_tree(r: ModelResult, steps: Seq<InstanceStep>, values: Seq<u64>, n: u32, extents: Seq<usize>, idx: Seq<usize>) -> bool
    decreases extents.len() - idx.len(),
{
    if idx.len() >= extents.len() {
        r matches ModelResult::Scalar(v) && instance_value(steps, values, n, idx, v)
    } else {
        &&& r matches ModelResult::Plate(items)
        &&& items@.len() == extents[idx.len() as int]
        &&& forall|i: int| 0 <= i < items@.len() ==> value_tree(#[trigger] items@[i], steps, values, n, extents, idx.push(i as usize))
    }
}

/// `idx` has one index below each extent.
pub open spec fn within(idx: Seq<usize>, extents: Seq<usize>) -> bool {
    idx.len() == extents.len() && forall|j: int| 0 <= j < idx.len() ==> idx[j] < extents[j]
}

/// The position of the step that is instance `indices` of `node_id`.
fn position_of(steps: &Vec<InstanceStep>, node_id: u32, indices: &Vec<usize>) -> (pos: Option<usize>)
    ensures
        pos matches Some(p) ==> p < steps@.len() && steps@[p as int].node_id == node_id && steps@[p as int].indices@ == indices@,
        pos is None ==> !has_key(steps@, steps@.len() as int, node_id, indices@),
{
    let mut p: usize = 0;
    while p < steps.len()
        invariant
            p <= steps@.len(),
            forall|k: int| 0 <= k < p ==> !((#[trigger] steps@[k]).node_id == node_id && steps@[k].indices@ == indices@),
        decreases steps@.len() - p,
    {
        if steps[p].node_id == node_id && crate::instance_plan::same_indices(&steps[p].indices, indices) {
            return Some(p);
        }
        p = p + 1;
    }
    None
}

/// The values of node `shape.node_id` below the instance prefix `indices`.
fn materialize_node(
    steps: &Vec<InstanceStep>,
    values: &Vec<u64>,
    shape: &NodeShape,
    indices: &mut Vec<usize>,
) -> (result: Result<ModelResult, String>)
    requires
        values@.len() == steps@.len(),
        old(indices)@.len() <= shape.extents@.len(),
        forall|j: int| 0 <= j < old(indices)@.len() ==> old(indices)@[j] < shape.extents@[j],
    ensures
        final(indices)@ == old(indices)@,
        result matches Ok(r) ==> value_tree(r, steps@, values@, shape.node_id, shape.extents@, old(indices)@),
        result matches Err(msg) ==> exists|idx: Seq<usize>| old(indices)@.is_prefix_of(idx)
            && !has_key(steps@, steps@.len() as int, shape.node_id, idx)
            && #[trigger] msg@ == "model did not produce "@ + address_text(shape.node_id, shape.plate_ids@, idx),
        (forall|idx: Seq<usize>| old(indices)@.is_prefix_of(idx) && within(idx, shape.extents@)
            ==> #[trigger] has_key(steps@, steps@.len() as int, shape.node_id, idx)) ==> result is Ok,
    decreases shape.extents@.len() - old(indices)@.len(),
{
    if indices.len() == shape.extents.len() {
        match position_of(steps, shape.node_id, indices) {
            Some(p) => {
                return Ok(ModelResult::Scalar(values[p]));
            },
            None => {
                let mut msg = String::new();
                push_str(&mut msg, "model did not produce ");
                let address = instance_address(shape.node_id, &shape.plate_ids, indices);
                push_str(&mut msg, address.as_str());
                proof {
                    reveal_strlit("model did not produce ");
                    assert(indices@.is_prefix_of(indices@));
                    assert(indices@ == old(indices)@);
                    assert(forall|j: int| 0 <= j < indices@.len() ==> indices@[j] < shape.extents@[j]);
                    assert(within(indices@, shape.extents@));
                }
                return Err(msg);
            },
        }
    }
    let ghost start = indices@;
    let extent = shape.extents[indices.len()];
    let mut items: Vec<ModelResult> = Vec::new();
    let mut i: usize = 0;
    while i < extent
        invariant
            values@.len() == steps@.len(),
            start.len() < shape.extents@.len(),
            start == old(indices)@,
            forall|j: int| 0 <= j < start.len() ==> start[j] < shape.extents@[j],
            indices@ == start,
            extent == shape.extents@[start.len() as int],
            i <= extent,
            items@.len() == i,
            forall|q: int| 0 <= q < i ==> value_tree(#[trigger] items@[q], steps@, values@, shape.node_id, shape.extents@, start.push(q as usize)),
        decreases extent - i,
    {
        indices.push(i);
        proof {
            assert forall|j: int| 0 <= j < indices@.len() implies indices@[j] < shape.extents@[j] by {
                if j < start.len() {
                    assert(indices@[j] == start[j]);
                }
            }
        }
        let r = materialize_node(steps, values, shape, indices);
        indices.pop();
        proof { assert(indices@ =~= start); }
        match r {
            Ok(item) => { items.push(item); },
            Err(msg) => {
                proof {
                    let idx = choose|idx: Seq<usize>| start.push(i).is_prefix_of(idx)
                        && !has_key(steps@, steps@.len() as int, shape.node_id, idx)
                        && #[trigger] msg@ == "model did not produce "@ + address_text(shape.node_id, shape.plate_ids@, idx);
                    assert(start.is_prefix_of(idx));
                }
                return Err(msg);
            },
        }
        i = i + 1;
    }
    Ok(ModelResult::Plate(items))
}

/// The values of every node of the plan, in the nested shape of its plates;
/// `values[k]` is the value that step `k` produced.
pub fn materialize_values(plan: &ModelPlan, values: &Vec<u64>) -> (result: Result<HashMap<u32, ModelResult>, String>)
    requires
        values@.len() == plan.steps@.len(),
        forall|a: int, b: int| 0 <= a < b < plan.shapes@.len() ==> (#[trigger] plan.shapes@[a]).node_id < (#[trigger] plan.shapes@[b]).node_id,
    ensures
        result matches Ok(m) ==> forall|k: int| 0 <= k < plan.shapes@.len() ==> {
            &&& m@.contains_key((#[trigger] plan.shapes@[k]).node_id)
            &&& value_tree(m@[plan.shapes@[k].node_id], plan.steps@, values@, plan.shapes@[k].node_id, plan.shapes@[k].extents@, Seq::empty())
        },
        result matches Ok(m) ==> forall|n: u32| #[trigger] m@.contains_key(n) ==> exists|k: int| 0 <= k < plan.shapes@.len() && (#[trigger] plan.shapes@[k]).node_id == n,
        (forall|k: int, idx: Seq<usize>| 0 <= k < plan.shapes@.len() && within(idx, (#[trigger] plan.shapes@[k]).extents@)
            ==> #[trigger] has_key(plan.steps@, plan.steps@.len() as int, plan.shapes@[k].node_id, idx)) ==> result is Ok,
{
    let mut m: HashMap<u32, ModelResult> = HashMap::new();
    let mut i: usize = 0;
    while i < plan.shapes.len()
        invariant
            values@.len() == plan.steps@.len(),
            i <= plan.shapes@.len(),
            forall|a: int, b: int| 0 <= a < b < plan.shapes@.len() ==> (#[trigger] plan.shapes@[a]).node_id < (#[trigger] plan.shapes@[b]).node_id,
            forall|k: int| 0 <= k < i ==> {
                &&& m@.contains_key((#[trigger] plan.shapes@[k]).node_id)
                &&& value_tree(m@[plan.shapes@[k].node_id], plan.steps@, values@, plan.shapes@[k].node_id, plan.shapes@[k].extents@, Seq::empty())
            },
            forall|n: u32| #[trigger] m@.contains_key(n) ==> exists|k: int| 0 <= k < i && (#[trigger] plan.shapes@[k]).node_id == n,
        decreases plan.shapes@.len() - i,
    {
        let shape = &plan.shapes[i];
        let mut indices: Vec<usize> = Vec::new();
        let value = match materialize_node(&plan.steps, values, shape, &mut indices) {
            Ok(v) => v,
            Err(msg) => {
                return Err(msg);
            },
        };
        m.insert(shape.node_id, value);
        proof {
            assert forall|k: int| 0 <= k < i + 1 implies {
                &&& m@.contains_key((#[trigger] plan.shapes@[k]).node_id)
                &&& value_tree(m@[plan.shapes@[k].node_id], plan.steps@, values@, plan.shapes@[k].node_id, plan.shapes@[k].extents@, Seq::empty())
            } by {
                if k < i {
                    assert(plan.shapes@[k].node_id < plan.shapes@[i as int].node_id);
                }
            }
        }
        i = i + 1;
    }
    Ok(m)
}

/// One listed scalar value: its instance indices, the label
/// `{display name} @ {address}` and the value's bit pattern.
#[derive(Debug)]
pub struct InstanceLine {
    pub node_id: u32,
    pub indices: Vec<usize>,
    pub label: String,
    pub value: u64,
}

/// The part of `r` at relative position `idx`, if there is one.
pub open spec fn subtree(r: ModelResult, idx: Seq<usize>) -> Option<ModelResult>
    decreases idx.len(),
{
    if idx.len() == 0 {
        Some(r)
    } else {
        match r {
            ModelResult::Plate(items) => if idx[0] < items@.len() {
                subtree(items@[idx[0] as int], idx.drop_first())
            } else {
                None
            },
            ModelResult::Scalar(_) => None,
        }
    }
}

/// Every position of `r` shallower than `depth` is a plate and every position at
/// `depth` a scalar.
pub open spec fn shaped(r: ModelResult, depth: nat) -> bool {
    forall|idx: Seq<usize>| #[trigger] fits_at(r, idx, depth)
}

/// The part of `r` at `idx`, if any, is a plate above `depth` and a scalar at it.
pub open spec fn fits_at(r: ModelResult, idx: Seq<usize>, depth: nat) -> bool {
    match subtree(r, idx) {
        Some(s) => (idx.len() < depth ==> s is Plate) && (idx.len() == depth ==> s is Scalar),
        None => true,
    }
}

/// `a` comes before `b` in lexicographic order.
pub open spec fn lex_less(a: Seq<usize>, b: Seq<usize>) -> bool {
    exists|i: int| 0 <= i < a.len() && i < b.len() && #[trigger] a.take(i) == b.take(i) && a[i] < b[i]
}

/// The label of an instance line.
pub open spec fn line_label(display: Seq<char>, node_id: u32, plate_ids: Seq<u32>, idx: Seq<usize>) -> Seq<char> {
    display + " @ "@ + address_text(node_id, plate_ids, idx)
}

/// The error for a plate where the node has no plate dimension left.
pub open spec fn extra_dimension_message(node_id: u32) -> Seq<char> {
    "node "@ + crate::text::decimal(node_id as nat) + " has an unexpected extra plate dimension"@
}

/// The error for a scalar where the node still has plate `plate` to index.
pub open spec fn missing_dimension_message(node_id: u32, plate: u32) -> Seq<char> {
    "node "@ + crate::text::decimal(node_id as nat) + " is missing plate dimension "@ + crate::text::decimal(plate as nat)
}

proof fn lemma_subtree_plate(items: Vec<ModelResult>, i: usize, rel: Seq<usize>)
    requires
        i < items@.len(),
    ensures
        subtree(ModelResult::Plate(items), seq![i].add(rel)) == subtree(items@[i as int], rel),
{
    let idx = seq![i].add(rel);
    assert(idx.drop_first() =~= rel);
}

/// Below a plate, the part at a nonempty position is the part of the item its
/// first index selects.
proof fn lemma_subtree_step(items: Vec<ModelResult>, idx: Seq<usize>)
    requires
        idx.len() > 0,
    ensures
        idx[0] < items@.len() ==> subtree(ModelResult::Plate(items), idx) == subtree(items@[idx[0] as int], idx.drop_first()),
        idx[0] >= items@.len() ==> subtree(ModelResult::Plate(items), idx) is None,
{
}

/// Index lists that share a prefix and then differ are ordered by the first difference.
proof fn lemma_lex_first(start: Seq<usize>, a: Seq<usize>, b: Seq<usize>)
    requires
        start.is_prefix_of(a),
        start.is_prefix_of(b),
        a.len() > start.len(),
        b.len() > start.len(),
        a[start.len() as int] < b[start.len() as int],
    ensures
        lex_less(a, b),
{
    let p = start.len() as int;
    assert(a.take(p) =~= start);
    assert(b.take(p) =~= start);
}

/// A line of `lines` at position `k` lists a scalar of `value` below prefix `start`.
pub open spec fn line_ok(lines: Seq<InstanceLine>, k: int, value: ModelResult, start: Seq<usize>, display: Seq<char>, node_id: u32, plate_ids: Seq<u32>) -> bool {
    let idx = lines[k].indices@;
    &&& lines[k].node_id == node_id
    &&& idx.len() == plate_ids.len()
    &&& start.is_prefix_of(idx)
    &&& subtree(value, idx.skip(start.len() as int)) == Some(ModelResult::Scalar(lines[k].value))
    &&& lines[k].label@ == line_label(display, node_id, plate_ids, idx)
}

/// Lists the scalar instances of `value`, a node value below the instance prefix
/// `indices`, in lexicographic order of their indices.
#[verifier::rlimit(60)]
fn format_instances(
    node_id: u32,
    display: &String,
    plate_ids: &Vec<u32>,
    value: &ModelResult,
    indices: &mut Vec<usize>,
    lines: &mut Vec<InstanceLine>,
) -> (result: Result<(), String>)
    requires
        old(indices)@.len() <= plate_ids@.len(),
    ensures
        final(indices)@ == old(indices)@,
        final(lines)@.len() >= old(lines)@.len(),
        final(lines)@.take(old(lines)@.len() as int) == old(lines)@,
        result is Ok <==> shaped(*value, (plate_ids@.len() - old(indices)@.len()) as nat),
        result is Ok ==> {
            &&& forall|k: int| old(lines)@.len() <= k < final(lines)@.len()
                ==> #[trigger] line_ok(final(lines)@, k, *value, old(indices)@, display@, node_id, plate_ids@)
            &&& forall|a: int, b: int| old(lines)@.len() <= a < b < final(lines)@.len()
                ==> lex_less((#[trigger] final(lines)@[a]).indices@, (#[trigger] final(lines)@[b]).indices@)
            &&& forall|rel: Seq<usize>| #[trigger] subtree(*value, rel) is Some && subtree(*value, rel).unwrap() is Scalar
                ==> exists|k: int| old(lines)@.len() <= k < final(lines)@.len() && (#[trigger] final(lines)@[k]).indices@ == old(indices)@ + rel
        },
        result matches Err(msg) ==> exists|rel: Seq<usize>| {
            ||| #[trigger] subtree(*value, rel) matches Some(ModelResult::Plate(_)) && old(indices)@.len() + rel.len() == plate_ids@.len()
                && msg@ == extra_dimension_message(node_id)
            ||| subtree(*value, rel) matches Some(ModelResult::Scalar(_)) && old(indices)@.len() + rel.len() < plate_ids@.len()
                && msg@ == missing_dimension_message(node_id, plate_ids@[(old(indices)@.len() + rel.len()) as int])
        },
    decreases value,
{
    let ghost start = indices@;
    let ghost l0 = lines@.len() as int;
    let ghost depth = (plate_ids@.len() - start.len()) as nat;
    proof {
        reveal_strlit("node ");
        reveal_strlit(" has an unexpected extra plate dimension");
        reveal_strlit(" is missing plate dimension ");
        reveal_strlit(" @ ");
        assert(subtree(*value, Seq::empty()) == Some(*value));
    }
    let at_leaf = indices.len() == plate_ids.len();
    match value {
        ModelResult::Scalar(v) => {
            if at_leaf {
                let mut label = String::new();
                push_str(&mut label, display.as_str());
                push_str(&mut label, " @ ");
                let address = instance_address(node_id, plate_ids, indices);
                push_str(&mut label, address.as_str());
                lines.push(InstanceLine { node_id, indices: crate::util::copy_usizes(indices), label, value: *v });
                proof {
                    assert(lines@.take(l0) =~= old(lines)@);
                    assert(lines@[l0].indices@.skip(start.len() as int) =~= Seq::<usize>::empty());
                    assert(line_ok(lines@, l0, *value, start, display@, node_id, plate_ids@));
                    assert forall|idx: Seq<usize>| #[trigger] fits_at(*value, idx, depth) by {
                        if idx.len() > 0 {
                            assert(subtree(*value, idx) is None);
                        }
                    }
                    assert forall|rel: Seq<usize>| #[trigger] subtree(*value, rel) is Some && subtree(*value, rel).unwrap() is Scalar
                        implies exists|k: int| l0 <= k < lines@.len() && (#[trigger] lines@[k]).indices@ == start + rel by {
                        if rel.len() > 0 {
                            assert(subtree(*value, rel) is None);
                        }
                        assert(rel =~= Seq::<usize>::empty());
                        assert(lines@[l0].indices@ =~= start + rel);
                    }
                }
                Ok(())
            } else {
                let mut msg = String::new();
                push_str(&mut msg, "node ");
                crate::text::push_decimal(&mut msg, node_id as u64);
                push_str(&mut msg, " is missing plate dimension ");
                crate::text::push_decimal(&mut msg, plate_ids[indices.len()] as u64);
                proof {
                    assert(lines@.take(l0) =~= old(lines)@);
                    let e = Seq::<usize>::empty();
                    assert(start.len() + e.len() < plate_ids@.len());
                    assert(!fits_at(*value, e, depth));
                }
                Err(msg)
            }
        },
        ModelResult::Plate(items) => {
            if at_leaf {
                let mut msg = String::new();
                push_str(&mut msg, "node ");
                crate::text::push_decimal(&mut msg, node_id as u64);
                push_str(&mut msg, " has an unexpected extra plate dimension");
                proof {
                    assert(lines@.take(l0) =~= old(lines)@);
                    assert(!fits_at(*value, Seq::<usize>::empty(), depth));
                }
                return Err(msg);
            }
            let mut i: usize = 0;
            while i < items.len()
                invariant
                    *value == ModelResult::Plate(*items),
                    start == old(indices)@,
                    indices@ == start,
                    start.len() < plate_ids@.len(),
                    depth == plate_ids@.len() - start.len(),
                    l0 == old(lines)@.len(),
                    lines@.len() >= l0,
                    lines@.take(l0) == old(lines)@,
                    i <= items@.len(),
                    forall|q: int| 0 <= q < i ==> shaped(#[trigger] items@[q], (depth - 1) as nat),
                    forall|k: int| l0 <= k < lines@.len() ==> #[trigger] line_ok(lines@, k, *value, start, display@, node_id, plate_ids@),
                    forall|k: int| l0 <= k < lines@.len() ==> (#[trigger] lines@[k]).indices@[start.len() as int] < i,
                    forall|a: int, b: int| l0 <= a < b < lines@.len() ==> lex_less((#[trigger] lines@[a]).indices@, (#[trigger] lines@[b]).indices@),
                    forall|rel: Seq<usize>| #[trigger] subtree(*value, rel) is Some && subtree(*value, rel).unwrap() is Scalar && rel.len() > 0 && rel[0] < i
                        ==> exists|k: int| l0 <= k < lines@.len() && (#[trigger] lines@[k]).indices@ == start + rel,
                decreases items@.len() - i,
            {
                let ghost before = lines@;
                indices.push(i);
                let ghost child_start = indices@;
                proof {
                    assert(decreases_to!(*items => items@[i as int]));
                    assert((*value)->Plate_0 == *items);
                    assert(decreases_to!(*value => (*value)->Plate_0));
                    assert(decreases_to!(*value => items@[i as int]));
                }
                let r = format_instances(node_id, display, plate_ids, &items[i], indices, lines);
                indices.pop();
                proof { assert(indices@ =~= start); }
                match r {
                    Ok(()) => {},
                    Err(msg) => {
                        proof {
                            assert(lines@.take(l0) =~= old(lines)@) by {
                                assert(lines@.take(before.len() as int) == before);
                            }
                            let rel = choose|rel: Seq<usize>| {
                                ||| #[trigger] subtree(items@[i as int], rel) matches Some(ModelResult::Plate(_)) && child_start.len() + rel.len() == plate_ids@.len()
                                    && msg@ == extra_dimension_message(node_id)
                                ||| subtree(items@[i as int], rel) matches Some(ModelResult::Scalar(_)) && child_start.len() + rel.len() < plate_ids@.len()
                                    && msg@ == missing_dimension_message(node_id, plate_ids@[(child_start.len() + rel.len()) as int])
                            };
                            lemma_subtree_plate(*items, i, rel);
                            let full = seq![i].add(rel);
                            assert(full.len() == 1 + rel.len());
                            assert(!fits_at(*value, full, depth));
                        }
                        return Err(msg);
                    },
                }
                proof {
                    lemma_format_step(lines@, before, l0, *value, *items, i, start, child_start, display@, node_id, plate_ids@);
                    assert(lines@.take(l0) =~= old(lines)@) by {
                        assert(lines@.take(before.len() as int) == before);
                        assert(before.take(l0) == old(lines)@);
                    }
                }
                i = i + 1;
            }
            proof {
                assert forall|idx: Seq<usize>| #[trigger] fits_at(*value, idx, depth) by {
                    if idx.len() > 0 {
                        lemma_subtree_step(*items, idx);
                        if idx[0] < items@.len() {
                            assert(shaped(items@[idx[0] as int], (depth - 1) as nat));
                            assert(fits_at(items@[idx[0] as int], idx.drop_first(), (depth - 1) as nat));
                        }
                    }
                }
                assert forall|rel: Seq<usize>| #[trigger] subtree(*value, rel) is Some && subtree(*value, rel).unwrap() is Scalar
                    implies exists|k: int| l0 <= k < lines@.len() && (#[trigger] lines@[k]).indices@ == start + rel by {
                    if rel.len() == 0 {
                        assert(subtree(*value, rel) == Some(*value));
                    } else {
                        lemma_subtree_step(*items, rel);
                    }
                }
            }
            Ok(())
        },
    }
}

/// After listing item `i` of a plate, the lines list the plate's items up to `i`.
#[verifier::rlimit(40)]
proof fn lemma_format_step(
    lines: Seq<InstanceLine>,
    before: Seq<InstanceLine>,
    l0: int,
    value: ModelResult,
    items: Vec<ModelResult>,
    i: usize,
    start: Seq<usize>,
    child_start: Seq<usize>,
    display: Seq<char>,
    node_id: u32,
    plate_ids: Seq<u32>,
)
    requires
        value == ModelResult::Plate(items),
        i < items@.len(),
        child_start == start.push(i),
        child_start.len() <= plate_ids.len(),
        0 <= l0 <= before.len() <= lines.len(),
        lines.take(before.len() as int) == before,
        forall|k: int| l0 <= k < before.len() ==> #[trigger] line_ok(before, k, value, start, display, node_id, plate_ids),
        forall|k: int| l0 <= k < before.len() ==> (#[trigger] before[k]).indices@[start.len() as int] < i,
        forall|a: int, b: int| l0 <= a < b < before.len() ==> lex_less((#[trigger] before[a]).indices@, (#[trigger] before[b]).indices@),
        forall|rel: Seq<usize>| #[trigger] subtree(value, rel) is Some && subtree(value, rel).unwrap() is Scalar && rel.len() > 0 && rel[0] < i
            ==> exists|k: int| l0 <= k < before.len() && (#[trigger] before[k]).indices@ == start + rel,
        forall|k: int| before.len() <= k < lines.len() ==> #[trigger] line_ok(lines, k, items@[i as int], child_start, display, node_id, plate_ids),
        forall|a: int, b: int| before.len() <= a < b < lines.len() ==> lex_less((#[trigger] lines[a]).indices@, (#[trigger] lines[b]).indices@),
        forall|rel: Seq<usize>| #[trigger] subtree(items@[i as int], rel) is Some && subtree(items@[i as int], rel).unwrap() is Scalar
            ==> exists|k: int| before.len() <= k < lines.len() && (#[trigger] lines[k]).indices@ == child_start + rel,
    ensures
        forall|k: int| l0 <= k < lines.len() ==> #[trigger] line_ok(lines, k, value, start, display, node_id, plate_ids),
        forall|k: int| l0 <= k < lines.len() ==> (#[trigger] lines[k]).indices@[start.len() as int] < i + 1,
        forall|a: int, b: int| l0 <= a < b < lines.len() ==> lex_less((#[trigger] lines[a]).indices@, (#[trigger] lines[b]).indices@),
        forall|rel: Seq<usize>| #[trigger] subtree(value, rel) is Some && subtree(value, rel).unwrap() is Scalar && rel.len() > 0 && rel[0] < i + 1
            ==> exists|k: int| l0 <= k < lines.len() && (#[trigger] lines[k]).indices@ == start + rel,
{
    let lb = before.len() as int;
    let p = start.len() as int;
    assert forall|k: int| 0 <= k < lb implies lines[k] == before[k] by {
        assert(lines.take(lb)[k] == lines[k]);
    }
    assert forall|k: int| l0 <= k < lines.len() implies #[trigger] line_ok(lines, k, value, start, display, node_id, plate_ids) by {
        if k < lb {
            assert(lines[k] == before[k]);
            assert(line_ok(before, k, value, start, display, node_id, plate_ids));
        } else {
            assert(line_ok(lines, k, items@[i as int], child_start, display, node_id, plate_ids));
            let idx = lines[k].indices@;
            let r2 = idx.skip(child_start.len() as int);
            assert(idx.skip(p) =~= seq![i].add(r2));
            lemma_subtree_plate(items, i, r2);
        }
    }
    assert forall|k: int| l0 <= k < lines.len() implies (#[trigger] lines[k]).indices@[p] < i + 1 by {
        if k < lb {
            assert(lines[k] == before[k]);
        } else {
            assert(line_ok(lines, k, items@[i as int], child_start, display, node_id, plate_ids));
            assert(lines[k].indices@[p] == child_start[p]);
        }
    }
    assert forall|a: int, b: int| l0 <= a < b < lines.len() implies lex_less((#[trigger] lines[a]).indices@, (#[trigger] lines[b]).indices@) by {
        if b < lb {
            assert(lines[a] == before[a] && lines[b] == before[b]);
        } else if a < lb {
            assert(lines[a] == before[a]);
            assert(line_ok(before, a, value, start, display, node_id, plate_ids));
            assert(line_ok(lines, b, items@[i as int], child_start, display, node_id, plate_ids));
            assert(lines[b].indices@[p] == child_start[p]);
            lemma_lex_first(start, lines[a].indices@, lines[b].indices@);
        }
    }
    assert forall|rel: Seq<usize>| #[trigger] subtree(value, rel) is Some && subtree(value, rel).unwrap() is Scalar && rel.len() > 0 && rel[0] < i + 1
        implies exists|k: int| l0 <= k < lines.len() && (#[trigger] lines[k]).indices@ == start + rel by {
        if rel[0] == i {
            let r2 = rel.drop_first();
            assert(rel =~= seq![i].add(r2));
            lemma_subtree_plate(items, i, r2);
            assert(subtree(items@[i as int], r2) is Some && subtree(items@[i as int], r2).unwrap() is Scalar);
            let k = choose|k: int| lb <= k < lines.len() && (#[trigger] lines[k]).indices@ == child_start + r2;
            assert(start + rel =~= child_start + r2);
        } else {
            let k = choose|k: int| l0 <= k < lb && (#[trigger] before[k]).indices@ == start + rel;
            assert(lines[k] == before[k]);
        }
    }
}

/// The listing of a node's value, when it has one line per scalar instance, or the
/// label `{display name} @ node#{id}` under which the whole value is shown when it
/// holds no scalar.
#[derive(Debug)]
pub enum NodeValueText {
    Lines(Vec<InstanceLine>),
    Whole(String),
}

/// `lines` lists, in increasing node id order and lexicographic index order within
/// a node, exactly the scalar instances of every node's value; every node has a
/// value shaped by its plate path.
pub open spec fn listing_ok(g: GraphIR, values: Map<u32, ModelResult>, lines: Seq<InstanceLine>) -> bool {
    &&& forall|k: int| 0 <= k < lines.len() ==> {
        let n = (#[trigger] lines[k]).node_id;
        &&& g.nodes@.contains_key(n)
        &&& values.contains_key(n)
        &&& line_ok(lines, k, values[n], Seq::empty(), display_name_text(g.nodes@[n]), n, plate_paths(g)[n]@)
    }
    &&& forall|a: int, b: int| 0 <= a < b < lines.len() ==> (#[trigger] lines[a]).node_id < (#[trigger] lines[b]).node_id
        || (lines[a].node_id == lines[b].node_id && lex_less(lines[a].indices@, lines[b].indices@))
    &&& forall|n: u32, rel: Seq<usize>| g.nodes@.contains_key(n) && values.contains_key(n)
        && #[trigger] subtree(values[n], rel) is Some && subtree(values[n], rel).unwrap() is Scalar
        ==> exists|k: int| 0 <= k < lines.len() && (#[trigger] lines[k]).node_id == n && lines[k].indices@ == rel
    &&& forall|n: u32| #[trigger] g.nodes@.contains_key(n) ==> values.contains_key(n) && shaped(values[n], plate_paths(g)[n]@.len())
}

impl GraphIR {
    /// Lists the scalar instances of node `node_id`'s value below its plate path.
    fn format_node_instances(&self, np: &NormalizedPlates, node_id: u32, value: &ModelResult, lines: &mut Vec<InstanceLine>)
        -> (result: Result<(), String>)
        requires
            plates_well_formed(*self),
            normalized_ok(*self, *np),
            self.nodes@.contains_key(node_id),
        ensures
            final(lines)@.len() >= old(lines)@.len(),
            final(lines)@.take(old(lines)@.len() as int) == old(lines)@,
            result is Ok <==> shaped(*value, np.node_paths@[node_id]@.len()),
            result is Ok ==> {
                &&& forall|k: int| old(lines)@.len() <= k < final(lines)@.len()
                    ==> #[trigger] line_ok(final(lines)@, k, *value, Seq::empty(), display_name_text(self.nodes@[node_id]), node_id, np.node_paths@[node_id]@)
                &&& forall|a: int, b: int| old(lines)@.len() <= a < b < final(lines)@.len()
                    ==> lex_less((#[trigger] final(lines)@[a]).indices@, (#[trigger] final(lines)@[b]).indices@)
                &&& forall|rel: Seq<usize>| #[trigger] subtree(*value, rel) is Some && subtree(*value, rel).unwrap() is Scalar
                    ==> exists|k: int| old(lines)@.len() <= k < final(lines)@.len() && (#[trigger] final(lines)@[k]).indices@ == rel
            },
    {
        let plate_ids = np.node_paths.get(&node_id).unwrap();
        let node = self.nodes.get(&node_id).unwrap();
        let display = node_display_name(node);
        let mut indices: Vec<usize> = Vec::new();
        let r = format_instances(node_id, &display, plate_ids, value, &mut indices, lines);
        proof {
            assert forall|rel: Seq<usize>| Seq::<usize>::empty() + rel == rel by {
                assert(Seq::<usize>::empty() + rel =~= rel);
            }
        }
        r
    }

    /// Lists every node's value in increasing node id order, each scalar instance
    /// as one line, after validating the plates.
    pub fn format_model_values(&self, values: &HashMap<u32, ModelResult>) -> (result: Result<Vec<InstanceLine>, String>)
        ensures
            result is Ok ==> plates_well_formed(*self) && dependencies_scoped(*self),
            result matches Ok(lines) ==> listing_ok(*self, values@, lines@),
            plates_well_formed(*self) && dependencies_scoped(*self)
                && (forall|n: u32| #[trigger] self.nodes@.contains_key(n) ==> values@.contains_key(n) && shaped(values@[n], plate_paths(*self)[n]@.len()))
                ==> result is Ok,
    {
        let np = match self.validated_plates() {
            Ok(np) => np,
            Err(e) => { return Err(e.message()); },
        };
        proof { crate::normalize::lemma_plate_paths(*self, np); }
        let ids = crate::util::sorted_keys(&self.nodes);
        let mut lines: Vec<InstanceLine> = Vec::new();
        let mut i: usize = 0;
        while i < ids.len()
            invariant
                plates_well_formed(*self),
                dependencies_scoped(*self),
                normalized_ok(*self, np),
                plate_paths(*self).dom() == np.node_paths@.dom(),
                forall|n: u32| #[trigger] np.node_paths@.contains_key(n) ==> plate_paths(*self)[n]@ == np.node_paths@[n]@,
                i <= ids@.len(),
                ids@.to_set() == self.nodes@.dom(),
                crate::util::strictly_increasing(ids@),
                forall|k: int| 0 <= k < i ==> values@.contains_key(#[trigger] ids@[k]) && shaped(values@[ids@[k]], plate_paths(*self)[ids@[k]]@.len()),
                forall|k: int| 0 <= k < lines@.len() ==> {
                    let n = (#[trigger] lines@[k]).node_id;
                    &&& self.nodes@.contains_key(n)
                    &&& values@.contains_key(n)
                    &&& line_ok(lines@, k, values@[n], Seq::empty(), display_name_text(self.nodes@[n]), n, plate_paths(*self)[n]@)
                    &&& exists|q: int| 0 <= q < i && ids@[q] == n
                },
                forall|a: int, b: int| 0 <= a < b < lines@.len() ==> (#[trigger] lines@[a]).node_id < (#[trigger] lines@[b]).node_id
                    || (lines@[a].node_id == lines@[b].node_id && lex_less(lines@[a].indices@, lines@[b].indices@)),
                forall|q: int, rel: Seq<usize>| 0 <= q < i && #[trigger] subtree(values@[ids@[q]], rel) is Some
                    && subtree(values@[ids@[q]], rel).unwrap() is Scalar
                    ==> exists|k: int| 0 <= k < lines@.len() && (#[trigger] lines@[k]).node_id == ids@[q] && lines@[k].indices@ == rel,
            decreases ids@.len() - i,
        {
            let n = ids[i];
            proof { assert(ids@.to_set().contains(n)); }
            let value = match values.get(&n) {
                Some(v) => v,
                None => {
                    let mut msg = String::new();
                    push_str(&mut msg, "sample results are missing node ");
                    crate::text::push_decimal(&mut msg, n as u64);
                    return Err(msg);
                },
            };
            let ghost before = lines@;
            match self.format_node_instances(&np, n, value, &mut lines) {
                Ok(()) => {},
                Err(msg) => { return Err(msg); },
            }
            proof {
                lemma_lines_append(*self, *values, np, ids@, i as int, before, lines@);
            }
            i = i + 1;
        }
        proof {
            assert forall|n: u32| #[trigger] self.nodes@.contains_key(n) implies values@.contains_key(n) && shaped(values@[n], plate_paths(*self)[n]@.len()) by {
                assert(ids@.to_set().contains(n));
                let q = choose|q: int| 0 <= q < ids@.len() && ids@[q] == n;
                assert(values@.contains_key(ids@[q]));
            }
            assert forall|n: u32, rel: Seq<usize>| self.nodes@.contains_key(n) && values@.contains_key(n)
                && #[trigger] subtree(values@[n], rel) is Some && subtree(values@[n], rel).unwrap() is Scalar
                implies exists|k: int| 0 <= k < lines@.len() && (#[trigger] lines@[k]).node_id == n && lines@[k].indices@ == rel by {
                assert(ids@.to_set().contains(n));
                let q = choose|q: int| 0 <= q < ids@.len() && ids@[q] == n;
                assert(subtree(values@[ids@[q]], rel) is Some);
            }
            assert(forall|k: int| 0 <= k < lines@.len() ==> {
                    let n = (#[trigger] lines@[k]).node_id;
                    &&& self.nodes@.contains_key(n)
                    &&& values@.contains_key(n)
                    &&& line_ok(lines@, k, values@[n], Seq::empty(), display_name_text(self.nodes@[n]), n, plate_paths(*self)[n]@)
                });
            assert(forall|a: int, b: int| 0 <= a < b < lines@.len() ==> (#[trigger] lines@[a]).node_id < (#[trigger] lines@[b]).node_id
                    || (lines@[a].node_id == lines@[b].node_id && lex_less(lines@[a].indices@, lines@[b].indices@)));
            assert(listing_ok(*self, values@, lines@));
        }
        Ok(lines)
    }
}

impl GraphIR {
    /// Lists one node's value after validating the plates: one line per scalar
    /// instance, or, for a value without scalars, the label under which the whole
    /// value is shown.
    pub fn format_node_value(&self, node_id: u32, value: &ModelResult) -> (result: Result<NodeValueText, String>)
        ensures
            result is Ok <==> plates_well_formed(*self) && dependencies_scoped(*self) && self.nodes@.contains_key(node_id)
                && shaped(*value, plate_paths(*self)[node_id]@.len()),
            result matches Ok(NodeValueText::Lines(lines)) ==> {
                &&& lines@.len() > 0
                &&& forall|k: int| 0 <= k < lines@.len() ==> #[trigger] line_ok(lines@, k, *value, Seq::empty(),
                    display_name_text(self.nodes@[node_id]), node_id, plate_paths(*self)[node_id]@)
                &&& forall|a: int, b: int| 0 <= a < b < lines@.len() ==> lex_less((#[trigger] lines@[a]).indices@, (#[trigger] lines@[b]).indices@)
                &&& forall|rel: Seq<usize>| #[trigger] subtree(*value, rel) is Some && subtree(*value, rel).unwrap() is Scalar
                    ==> exists|k: int| 0 <= k < lines@.len() && (#[trigger] lines@[k]).indices@ == rel
            },
            result matches Ok(NodeValueText::Whole(label)) ==> {
                &&& label@ == display_name_text(self.nodes@[node_id]) + " @ node#"@ + crate::text::decimal(node_id as nat)
                &&& forall|rel: Seq<usize>| !(#[trigger] subtree(*value, rel) is Some && subtree(*value, rel).unwrap() is Scalar)
            },
            result matches Err(msg) ==> plates_well_formed(*self) && dependencies_scoped(*self) && !self.nodes@.contains_key(node_id)
                ==> msg@ == "node "@ + crate::text::decimal(node_id as nat) + " has no normalized plate path"@,
    {
        let np = match self.validated_plates() {
            Ok(np) => np,
            Err(e) => { return Err(e.message()); },
        };
        proof { crate::normalize::lemma_plate_paths(*self, np); }
        if !self.nodes.contains_key(&node_id) {
            let mut msg = String::new();
            push_str(&mut msg, "node ");
            crate::text::push_decimal(&mut msg, node_id as u64);
            push_str(&mut msg, " has no normalized plate path");
            proof { reveal_strlit("node "); reveal_strlit(" has no normalized plate path"); }
            return Err(msg);
        }
        let mut lines: Vec<InstanceLine> = Vec::new();
        match self.format_node_instances(&np, node_id, value, &mut lines) {
            Ok(()) => {},
            Err(msg) => { return Err(msg); },
        }
        proof {
            assert(lines@.take(0) =~= Seq::<InstanceLine>::empty());
        }
        if lines.len() == 0 {
            let node = self.nodes.get(&node_id).unwrap();
            let mut label = node_display_name(node);
            push_str(&mut label, " @ node#");
            crate::text::push_decimal(&mut label, node_id as u64);
            proof {
                reveal_strlit(" @ node#");
                assert forall|rel: Seq<usize>| !(#[trigger] subtree(*value, rel) is Some && subtree(*value, rel).unwrap() is Scalar) by {
                    if subtree(*value, rel) is Some && subtree(*value, rel).unwrap() is Scalar {
                        let k = choose|k: int| 0 <= k < lines@.len() && (#[trigger] lines@[k]).indices@ == rel;
                    }
                }
            }
            return Ok(NodeValueText::Whole(label));
        }
        Ok(NodeValueText::Lines(lines))
    }
}

/// Appending the lines of node `ids[i]` keeps the listing in node order.
proof fn lemma_lines_append(
    g: GraphIR,
    values: HashMap<u32, ModelResult>,
    np: NormalizedPlates,
    ids: Seq<u32>,
    i: int,
    before: Seq<InstanceLine>,
    lines: Seq<InstanceLine>,
)
    requires
        plates_well_formed(g),
        normalized_ok(g, np),
        forall|n: u32| #[trigger] np.node_paths@.contains_key(n) ==> plate_paths(g)[n]@ == np.node_paths@[n]@,
        0 <= i < ids.len(),
        ids.to_set() == g.nodes@.dom(),
        crate::util::strictly_increasing(ids),
        values@.contains_key(ids[i]),
        lines.len() >= before.len(),
        lines.take(before.len() as int) == before,
        shaped(values@[ids[i]], np.node_paths@[ids[i]]@.len()),
        forall|k: int| 0 <= k < i ==> values@.contains_key(#[trigger] ids[k]) && shaped(values@[ids[k]], plate_paths(g)[ids[k]]@.len()),
        forall|k: int| 0 <= k < before.len() ==> {
            let n = (#[trigger] before[k]).node_id;
            &&& g.nodes@.contains_key(n)
            &&& values@.contains_key(n)
            &&& line_ok(before, k, values@[n], Seq::empty(), display_name_text(g.nodes@[n]), n, plate_paths(g)[n]@)
            &&& exists|q: int| 0 <= q < i && ids[q] == n
        },
        forall|a: int, b: int| 0 <= a < b < before.len() ==> (#[trigger] before[a]).node_id < (#[trigger] before[b]).node_id
            || (before[a].node_id == before[b].node_id && lex_less(before[a].indices@, before[b].indices@)),
        forall|q: int, rel: Seq<usize>| 0 <= q < i && #[trigger] subtree(values@[ids[q]], rel) is Some
            && subtree(values@[ids[q]], rel).unwrap() is Scalar
            ==> exists|k: int| 0 <= k < before.len() && (#[trigger] before[k]).node_id == ids[q] && before[k].indices@ == rel,
        forall|k: int| before.len() <= k < lines.len()
            ==> #[trigger] line_ok(lines, k, values@[ids[i]], Seq::empty(), display_name_text(g.nodes@[ids[i]]), ids[i], np.node_paths@[ids[i]]@),
        forall|a: int, b: int| before.len() <= a < b < lines.len() ==> lex_less((#[trigger] lines[a]).indices@, (#[trigger] lines[b]).indices@),
        forall|rel: Seq<usize>| #[trigger] subtree(values@[ids[i]], rel) is Some && subtree(values@[ids[i]], rel).unwrap() is Scalar
            ==> exists|k: int| before.len() <= k < lines.len() && (#[trigger] lines[k]).indices@ == rel,
    ensures
        forall|k: int| 0 <= k < i + 1 ==> values@.contains_key(#[trigger] ids[k]) && shaped(values@[ids[k]], plate_paths(g)[ids[k]]@.len()),
        forall|k: int| 0 <= k < lines.len() ==> {
            let n = (#[trigger] lines[k]).node_id;
            &&& g.nodes@.contains_key(n)
            &&& values@.contains_key(n)
            &&& line_ok(lines, k, values@[n], Seq::empty(), display_name_text(g.nodes@[n]), n, plate_paths(g)[n]@)
            &&& exists|q: int| 0 <= q < i + 1 && ids[q] == n
        },
        forall|a: int, b: int| 0 <= a < b < lines.len() ==> (#[trigger] lines[a]).node_id < (#[trigger] lines[b]).node_id
            || (lines[a].node_id == lines[b].node_id && lex_less(lines[a].indices@, lines[b].indices@)),
        forall|q: int, rel: Seq<usize>| 0 <= q < i + 1 && #[trigger] subtree(values@[ids[q]], rel) is Some
            && subtree(values@[ids[q]], rel).unwrap() is Scalar
            ==> exists|k: int| 0 <= k < lines.len() && (#[trigger] lines[k]).node_id == ids[q] && lines[k].indices@ == rel,
{
    let lb = before.len() as int;
    let n = ids[i];
    assert(ids.to_set().contains(n));
    assert(np.node_paths@.contains_key(n));
    assert forall|k: int| 0 <= k < lb implies lines[k] == before[k] by {
        assert(lines.take(lb)[k] == lines[k]);
    }
    assert forall|k: int| 0 <= k < lines.len() implies {
        let m = (#[trigger] lines[k]).node_id;
        &&& g.nodes@.contains_key(m)
        &&& values@.contains_key(m)
        &&& line_ok(lines, k, values@[m], Seq::empty(), display_name_text(g.nodes@[m]), m, plate_paths(g)[m]@)
        &&& exists|q: int| 0 <= q < i + 1 && ids[q] == m
    } by {
        if k < lb {
            assert(lines[k] == before[k]);
            let m = before[k].node_id;
            assert(line_ok(before, k, values@[m], Seq::empty(), display_name_text(g.nodes@[m]), m, plate_paths(g)[m]@));
            let q = choose|q: int| 0 <= q < i && ids[q] == m;
        } else {
            assert(line_ok(lines, k, values@[n], Seq::empty(), display_name_text(g.nodes@[n]), n, np.node_paths@[n]@));
        }
    }
    assert forall|a: int, b: int| 0 <= a < b < lines.len() implies (#[trigger] lines[a]).node_id < (#[trigger] lines[b]).node_id
        || (lines[a].node_id == lines[b].node_id && lex_less(lines[a].indices@, lines[b].indices@)) by {
        if b < lb {
            assert(lines[a] == before[a] && lines[b] == before[b]);
        } else if a < lb {
            assert(lines[a] == before[a]);
            let q = choose|q: int| 0 <= q < i && ids[q] == before[a].node_id;
            assert(line_ok(lines, b, values@[n], Seq::empty(), display_name_text(g.nodes@[n]), n, np.node_paths@[n]@));
            assert(ids[q] < ids[i]);
        } else {
            assert(line_ok(lines, a, values@[n], Seq::empty(), display_name_text(g.nodes@[n]), n, np.node_paths@[n]@));
            assert(line_ok(lines, b, values@[n], Seq::empty(), display_name_text(g.nodes@[n]), n, np.node_paths@[n]@));
        }
    }
    assert forall|q: int, rel: Seq<usize>| 0 <= q < i + 1 && #[trigger] subtree(values@[ids[q]], rel) is Some
        && subtree(values@[ids[q]], rel).unwrap() is Scalar
        implies exists|k: int| 0 <= k < lines.len() && (#[trigger] lines[k]).node_id == ids[q] && lines[k].indices@ == rel by {
        if q < i {
            let k = choose|k: int| 0 <= k < lb && (#[trigger] before[k]).node_id == ids[q] && before[k].indices@ == rel;
            assert(lines[k] == before[k]);
        } else {
            let k = choose|k: int| lb <= k < lines.len() && (#[trigger] lines[k]).indices@ == rel;
            assert(line_ok(lines, k, values@[n], Seq::empty(), display_name_text(g.nodes@[n]), n, np.node_paths@[n]@));
        }
    }
}

/// The first scalar of `r` in depth-first order, if it holds one.
pub open spec fn first_leaf(r: ModelResult) -> Option<u64>
    decreases r, 1int,
{
    match r {
        ModelResult::Scalar(v) => Some(v),
        ModelResult::Plate(items) => first_leaf_among(items@, 0),
    }
}

/// The first scalar, in depth-first order, of the items from position `k` on.
pub open spec fn first_leaf_among(items: Seq<ModelResult>, k: int) -> Option<u64>
    decreases items, items.len() - k,
{
    if k < 0 || k >= items.len() {
        None
    } else {
        match first_leaf(items[k]) {
            Some(v) => Some(v),
            None => first_leaf_among(items, k + 1),
        }
    }
}

/// The first scalar of a value in depth-first order; `None` for a value made of
/// empty plates only.
pub fn first_scalar(value: &ModelResult) -> (first: Option<u64>)
    ensures
        first == first_leaf(*value),
    decreases value,
{
    match value {
        ModelResult::Scalar(v) => Some(*v),
        ModelResult::Plate(items) => {
            let mut k: usize = 0;
            while k < items.len()
                invariant
                    k <= items@.len(),
                    *value == ModelResult::Plate(*items),
                    first_leaf(*value) == first_leaf_among(items@, k as int),
                decreases items@.len() - k,
            {
                proof {
                    assert(decreases_to!(*items => items@[k as int]));
                    assert(decreases_to!(*value => (*value)->Plate_0));
                    assert(decreases_to!(*value => items@[k as int]));
                }
                match first_scalar(&items[k]) {
                    Some(v) => return Some(v),
                    None => {},
                }
                k = k + 1;
            }
            None
        },
    }
}

} // verus!
