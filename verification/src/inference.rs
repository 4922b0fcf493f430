//! Retained posterior draws and their grouping by concrete node instance.
use crate::model_values::{lex_less, subtree, ModelResult};
use crate::text::{decimal, index_list, push_decimal, push_index_list, push_str};
use std::collections::HashMap;
use vstd::prelude::*;

verus! {

broadcast use {
    vstd::std_specs::hash::group_hash_axioms,
    vstd::seq_lib::group_seq_properties,
    vstd::std_specs::vec::group_vec_axioms,
};

/// A record of the random choices of one model execution.
#[verifier::external_type_specification]
#[verifier::external_body]
pub struct ExTrace(fugue::Trace);

/// All retained posterior executions and their traces. Values keep their nested
/// plate shape, so a concrete row can be selected without rerunning inference.
pub struct InferenceResult {
    pub seed: u64,
    pub n_samples: usize,
    pub n_warmup: usize,
    pub samples_by_node: HashMap<u32, Vec<ModelResult>>,
    pub traces: Vec<fugue::Trace>,
}

/// One scalar posterior value and the retained draw that produced it; the value is
/// the bit pattern of an IEEE-754 binary64 number.
#[derive(Clone, Copy, Debug, PartialEq, Eq, Structural)]
pub struct PosteriorSample {
    pub draw_index: usize,
    pub value: u64,
}

/// Posterior samples of one concrete scalar instance of a node; a node outside
/// plates has empty `indices`.
#[derive(Debug, PartialEq)]
pub struct NodeInstanceSamples {
    pub indices: Vec<usize>,
    pub samples: Vec<PosteriorSample>,
}

/// The bits encode a finite number: the exponent field is not all ones.
pub open spec fn finite_bits(b: u64) -> bool {
    (b >> 52u64) & 0x7ffu64 != 0x7ffu64
}

/// Whether the bits encode a finite number.
pub fn is_finite_bits(b: u64) -> (r: bool)
    ensures
        r == finite_bits(b),
{
    (b >> 52u64) & 0x7ffu64 != 0x7ffu64
}

/// The scalar of `r` at position `rel`, if that part of `r` is a scalar.
pub open spec fn scalar_at(r: ModelResult, rel: Seq<usize>) -> Option<u64> {
    match subtree(r, rel) {
        Some(ModelResult::Scalar(v)) => Some(v),
        _ => None,
    }
}

/// The samples of instance `rel` from the first `end` draws, in draw order: one for
/// each draw that has a scalar at `rel`.
pub open spec fn draw_samples(draws: Seq<ModelResult>, end: int, rel: Seq<usize>) -> Seq<PosteriorSample>
    decreases end,
{
    if end <= 0 {
        Seq::empty()
    } else {
        let before = draw_samples(draws, end - 1, rel);
        match scalar_at(draws[end - 1], rel) {
            Some(v) => before.push(PosteriorSample { draw_index: (end - 1) as usize, value: v }),
            None => before,
        }
    }
}

/// `a` comes before `b` in the order of index lists: lexicographic, with a proper
/// prefix first.
pub open spec fn index_order(a: Seq<usize>, b: Seq<usize>) -> bool {
    lex_less(a, b) || (a.len() < b.len() && a.is_prefix_of(b))
}

/// Some draw has a scalar at `rel`.
pub open spec fn is_drawn(draws: Seq<ModelResult>, rel: Seq<usize>) -> bool {
    exists|d: int| 0 <= d < draws.len() && #[trigger] scalar_at(draws[d], rel) is Some
}

/// Every scalar of every draw is finite.
pub open spec fn draws_finite(draws: Seq<ModelResult>) -> bool {
    forall|d: int, rel: Seq<usize>| 0 <= d < draws.len() && #[trigger] scalar_at(draws[d], rel) is Some
        ==> finite_bits(scalar_at(draws[d], rel).unwrap())
}

/// `out` groups the draws by instance: the instances in increasing index order,
/// exactly those some draw has a scalar at, each with its samples in draw order.
pub open spec fn grouped(draws: Seq<ModelResult>, out: Seq<NodeInstanceSamples>) -> bool {
    &&& forall|a: int, b: int| 0 <= a < b < out.len() ==> index_order((#[trigger] out[a]).indices@, (#[trigger] out[b]).indices@)
    &&& forall|j: int| 0 <= j < out.len() ==> (#[trigger] out[j]).samples@ == draw_samples(draws, draws.len() as int, out[j].indices@)
    &&& forall|j: int| 0 <= j < out.len() ==> is_drawn(draws, (#[trigger] out[j]).indices@)
    &&& forall|rel: Seq<usize>| #[trigger] is_drawn(draws, rel) ==> exists|j: int| 0 <= j < out.len() && (#[trigger] out[j]).indices@ == rel
}

/// Entry `k` of `out` is a scalar of `value` at a position below `start`.
pub open spec fn flat_entry_ok(out: Seq<(Vec<usize>, u64)>, k: int, value: ModelResult, start: Seq<usize>) -> bool {
    &&& start.is_prefix_of(out[k].0@)
    &&& scalar_at(value, out[k].0@.skip(start.len() as int)) == Some(out[k].1)
}

proof fn lemma_scalar_step(items: Vec<ModelResult>, i: usize, rel: Seq<usize>)
    requires
        i < items@.len(),
    ensures
        scalar_at(ModelResult::Plate(items), seq![i].add(rel)) == scalar_at(items@[i as int], rel),
{
    let idx = seq![i].add(rel);
    assert(idx.drop_first() =~= rel);
    assert(subtree(ModelResult::Plate(items), idx) == subtree(items@[i as int], rel));
}

/// Appends every scalar of `value` with its full position, `indices` followed by
/// its position inside `value`, in depth-first order.
fn flatten_into(value: &ModelResult, indices: &mut Vec<usize>, out: &mut Vec<(Vec<usize>, u64)>)
    ensures
        final(indices)@ == old(indices)@,
        final(out)@.len() >= old(out)@.len(),
        final(out)@.take(old(out)@.len() as int) == old(out)@,
        forall|k: int| old(out)@.len() <= k < final(out)@.len() ==> #[trigger] flat_entry_ok(final(out)@, k, *value, old(indices)@),
        forall|rel: Seq<usize>| #[trigger] scalar_at(*value, rel) is Some
            ==> exists|k: int| old(out)@.len() <= k < final(out)@.len() && (#[trigger] final(out)@[k]).0@ == old(indices)@ + rel,
        forall|a: int, b: int| old(out)@.len() <= a < b < final(out)@.len() ==> (#[trigger] final(out)@[a]).0@ != (#[trigger] final(out)@[b]).0@,
    decreases value,
{
    let ghost start = indices@;
    let ghost l0 = out@.len() as int;
    match value {
        ModelResult::Scalar(v) => {
            out.push((crate::util::copy_usizes(indices), *v));
            proof {
                assert(out@.take(l0) =~= old(out)@);
                assert(out@[l0].0@.skip(start.len() as int) =~= Seq::<usize>::empty());
                assert(subtree(*value, Seq::<usize>::empty()) == Some(*value));
                assert(flat_entry_ok(out@, l0, *value, start));
                assert forall|rel: Seq<usize>| #[trigger] scalar_at(*value, rel) is Some
                    implies exists|k: int| l0 <= k < out@.len() && (#[trigger] out@[k]).0@ == start + rel by {
                    if rel.len() > 0 {
                        assert(subtree(*value, rel) is None);
                    }
                    assert(rel =~= Seq::<usize>::empty());
                    assert(out@[l0].0@ =~= start + rel);
                }
            }
        },
        ModelResult::Plate(items) => {
            let mut i: usize = 0;
            while i < items.len()
                invariant
                    *value == ModelResult::Plate(*items),
                    start == old(indices)@,
                    indices@ == start,
                    l0 == old(out)@.len(),
                    out@.len() >= l0,
                    out@.take(l0) == old(out)@,
                    i <= items@.len(),
                    forall|k: int| l0 <= k < out@.len() ==> #[trigger] flat_entry_ok(out@, k, *value, start),
                    forall|k: int| l0 <= k < out@.len() ==> (#[trigger] out@[k]).0@.len() > start.len()
                        && out@[k].0@[start.len() as int] < i,
                    forall|rel: Seq<usize>| #[trigger] scalar_at(*value, rel) is Some && rel.len() > 0 && rel[0] < i
                        ==> exists|k: int| l0 <= k < out@.len() && (#[trigger] out@[k]).0@ == start + rel,
                    forall|a: int, b: int| l0 <= a < b < out@.len() ==> (#[trigger] out@[a]).0@ != (#[trigger] out@[b]).0@,
                decreases items@.len() - i,
            {
                let ghost before = out@;
                indices.push(i);
                let ghost child_start = indices@;
                proof {
                    assert(decreases_to!(*items => items@[i as int]));
                    assert((*value)->Plate_0 == *items);
                    assert(decreases_to!(*value => (*value)->Plate_0));
                }
                flatten_into(&items[i], indices, out);
                indices.pop();
                proof {
                    assert(indices@ =~= start);
                    lemma_flatten_step(out@, before, l0, *value, *items, i, start, child_start);
                    assert(out@.take(l0) =~= old(out)@) by {
                        assert(out@.take(before.len() as int) == before);
                        assert(before.take(l0) == old(out)@);
                    }
                }
                i = i + 1;
            }
            proof {
                assert forall|rel: Seq<usize>| #[trigger] scalar_at(*value, rel) is Some
                    implies exists|k: int| l0 <= k < out@.len() && (#[trigger] out@[k]).0@ == start + rel by {
                    if rel.len() == 0 {
                        assert(subtree(*value, rel) == Some(*value));
                    } else if rel[0] >= items@.len() {
                        assert(subtree(*value, rel) is None);
                    }
                }
            }
        },
    }
}

/// After flattening item `i` of a plate, the entries list the plate's items up to `i`.
#[verifier::rlimit(40)]
proof fn lemma_flatten_step(
    out: Seq<(Vec<usize>, u64)>,
    before: Seq<(Vec<usize>, u64)>,
    l0: int,
    value: ModelResult,
    items: Vec<ModelResult>,
    i: usize,
    start: Seq<usize>,
    child_start: Seq<usize>,
)
    requires
        value == ModelResult::Plate(items),
        i < items@.len(),
        child_start == start.push(i),
        0 <= l0 <= before.len() <= out.len(),
        out.take(before.len() as int) == before,
        forall|k: int| l0 <= k < before.len() ==> #[trigger] flat_entry_ok(before, k, value, start),
        forall|k: int| l0 <= k < before.len() ==> (#[trigger] before[k]).0@.len() > start.len() && before[k].0@[start.len() as int] < i,
        forall|rel: Seq<usize>| #[trigger] scalar_at(value, rel) is Some && rel.len() > 0 && rel[0] < i
            ==> exists|k: int| l0 <= k < before.len() && (#[trigger] before[k]).0@ == start + rel,
        forall|a: int, b: int| l0 <= a < b < before.len() ==> (#[trigger] before[a]).0@ != (#[trigger] before[b]).0@,
        forall|k: int| before.len() <= k < out.len() ==> #[trigger] flat_entry_ok(out, k, items@[i as int], child_start),
        forall|rel: Seq<usize>| #[trigger] scalar_at(items@[i as int], rel) is Some
            ==> exists|k: int| before.len() <= k < out.len() && (#[trigger] out[k]).0@ == child_start + rel,
        forall|a: int, b: int| before.len() <= a < b < out.len() ==> (#[trigger] out[a]).0@ != (#[trigger] out[b]).0@,
    ensures
        forall|k: int| l0 <= k < out.len() ==> #[trigger] flat_entry_ok(out, k, value, start),
        forall|k: int| l0 <= k < out.len() ==> (#[trigger] out[k]).0@.len() > start.len() && out[k].0@[start.len() as int] < i + 1,
        forall|rel: Seq<usize>| #[trigger] scalar_at(value, rel) is Some && rel.len() > 0 && rel[0] < i + 1
            ==> exists|k: int| l0 <= k < out.len() && (#[trigger] out[k]).0@ == start + rel,
        forall|a: int, b: int| l0 <= a < b < out.len() ==> (#[trigger] out[a]).0@ != (#[trigger] out[b]).0@,
{
    let lb = before.len() as int;
    let p = start.len() as int;
    assert forall|k: int| 0 <= k < lb implies out[k] == before[k] by {
        assert(out.take(lb)[k] == out[k]);
    }
    assert forall|k: int| l0 <= k < out.len() implies #[trigger] flat_entry_ok(out, k, value, start) by {
        if k < lb {
            assert(out[k] == before[k]);
            assert(flat_entry_ok(before, k, value, start));
        } else {
            assert(flat_entry_ok(out, k, items@[i as int], child_start));
            let idx = out[k].0@;
            let r2 = idx.skip(child_start.len() as int);
            assert(idx[p] == child_start[p]);
            assert(idx.skip(p) =~= seq![i].add(r2));
            lemma_scalar_step(items, i, r2);
        }
    }
    assert forall|k: int| l0 <= k < out.len() implies (#[trigger] out[k]).0@.len() > p && out[k].0@[p] < i + 1 by {
        if k < lb {
            assert(out[k] == before[k]);
        } else {
            assert(flat_entry_ok(out, k, items@[i as int], child_start));
            assert(out[k].0@[p] == child_start[p]);
        }
    }
    assert forall|a: int, b: int| l0 <= a < b < out.len() implies (#[trigger] out[a]).0@ != (#[trigger] out[b]).0@ by {
        if b < lb {
            assert(out[a] == before[a] && out[b] == before[b]);
        } else if a < lb {
            assert(out[a] == before[a]);
            assert(flat_entry_ok(out, b, items@[i as int], child_start));
            assert(out[b].0@[p] == child_start[p]);
        }
    }
    assert forall|rel: Seq<usize>| #[trigger] scalar_at(value, rel) is Some && rel.len() > 0 && rel[0] < i + 1
        implies exists|k: int| l0 <= k < out.len() && (#[trigger] out[k]).0@ == start + rel by {
        if rel[0] == i {
            let r2 = rel.drop_first();
            assert(rel =~= seq![i].add(r2));
            lemma_scalar_step(items, i, r2);
            assert(scalar_at(items@[i as int], r2) is Some);
            let k = choose|k: int| lb <= k < out.len() && (#[trigger] out[k]).0@ == child_start + r2;
            assert(start + rel =~= child_start + r2);
        } else {
            let k = choose|k: int| l0 <= k < lb && (#[trigger] before[k]).0@ == start + rel;
            assert(out[k] == before[k]);
        }
    }
}

/// Whether `a` comes before `b` in index order.
pub fn index_before(a: &Vec<usize>, b: &Vec<usize>) -> (r: bool)
    ensures
        r == index_order(a@, b@),
{
    let n = if a.len() < b.len() { a.len() } else { b.len() };
    let mut i: usize = 0;
    while i < n
        invariant
            i <= n,
            n <= a@.len(),
            n <= b@.len(),
            n == a@.len() || n == b@.len(),
            a@.take(i as int) == b@.take(i as int),
        decreases n - i,
    {
        if a[i] != b[i] {
            let r = a[i] < b[i];
            proof {
                if !r {
                    if lex_less(a@, b@) {
                        let k = choose|k: int| 0 <= k < a@.len() && k < b@.len() && #[trigger] a@.take(k) == b@.take(k) && a@[k] < b@[k];
                        if k < i {
                            assert(a@.take(i as int)[k] == b@.take(i as int)[k]);
                        } else if k > i {
                            assert(a@.take(k)[i as int] == b@.take(k)[i as int]);
                        }
                    }
                    if a@.len() < b@.len() && a@.is_prefix_of(b@) {
                        assert(a@[i as int] == b@[i as int]);
                    }
                }
            }
            return r;
        }
        proof {
            assert(a@.take(i + 1) =~= a@.take(i as int).push(a@[i as int]));
            assert(b@.take(i + 1) =~= b@.take(i as int).push(b@[i as int]));
        }
        i = i + 1;
    }
    proof {
        if lex_less(a@, b@) {
            let k = choose|k: int| 0 <= k < a@.len() && k < b@.len() && #[trigger] a@.take(k) == b@.take(k) && a@[k] < b@[k];
            assert(a@.take(n as int)[k] == b@.take(n as int)[k]);
        }
        if a@.len() < b@.len() {
            assert(a@.take(n as int) =~= a@);
            assert forall|k: int| 0 <= k < a@.len() implies a@[k] == b@[k] by {
                assert(a@.take(n as int)[k] == b@.take(n as int)[k]);
            }
        }
    }
    a.len() < b.len()
}

/// Index order is irreflexive, asymmetric, transitive and total on distinct lists.
proof fn lemma_index_order(a: Seq<usize>, b: Seq<usize>, c: Seq<usize>)
    ensures
        !index_order(a, a),
        index_order(a, b) ==> !index_order(b, a),
        index_order(a, b) && index_order(b, c) ==> index_order(a, c),
        a != b ==> index_order(a, b) || index_order(b, a),
{
    if lex_less(a, a) {
        let k = choose|k: int| 0 <= k < a.len() && k < a.len() && #[trigger] a.take(k) == a.take(k) && a[k] < a[k];
    }
    if index_order(a, b) && index_order(b, a) {
        if lex_less(a, b) {
            let k = choose|k: int| 0 <= k < a.len() && k < b.len() && #[trigger] a.take(k) == b.take(k) && a[k] < b[k];
            if lex_less(b, a) {
                let m = choose|m: int| 0 <= m < b.len() && m < a.len() && #[trigger] b.take(m) == a.take(m) && b[m] < a[m];
                if m < k { assert(a.take(k)[m] == b.take(k)[m]); }
                if k < m { assert(b.take(m)[k] == a.take(m)[k]); }
            } else {
                assert(b[k] == a[k]);
            }
        } else if lex_less(b, a) {
            let m = choose|m: int| 0 <= m < b.len() && m < a.len() && #[trigger] b.take(m) == a.take(m) && b[m] < a[m];
            assert(a[m] == b[m]);
        }
    }
    if index_order(a, b) && index_order(b, c) {
        let ab = lex_less(a, b);
        let bc = lex_less(b, c);
        if ab {
            let k = choose|k: int| 0 <= k < a.len() && k < b.len() && #[trigger] a.take(k) == b.take(k) && a[k] < b[k];
            if bc {
                let m = choose|m: int| 0 <= m < b.len() && m < c.len() && #[trigger] b.take(m) == c.take(m) && b[m] < c[m];
                let q = if k < m { k } else { m };
                assert forall|t: int| 0 <= t < q implies a[t] == c[t] by {
                    assert(a.take(k)[t] == b.take(k)[t]);
                    assert(b.take(m)[t] == c.take(m)[t]);
                }
                assert(a.take(q) =~= c.take(q));
                if k < m { assert(b.take(m)[k] == c.take(m)[k]); }
                if m < k { assert(a.take(k)[m] == b.take(k)[m]); }
            } else {
                assert forall|t: int| 0 <= t < k implies a[t] == c[t] by {
                    assert(a.take(k)[t] == b.take(k)[t]);
                }
                assert(a.take(k) =~= c.take(k));
                assert(b[k] == c[k]);
            }
        } else {
            if bc {
                let m = choose|m: int| 0 <= m < b.len() && m < c.len() && #[trigger] b.take(m) == c.take(m) && b[m] < c[m];
                if m < a.len() {
                    assert forall|t: int| 0 <= t < m implies a[t] == c[t] by {
                        assert(b.take(m)[t] == c.take(m)[t]);
                    }
                    assert(a.take(m) =~= c.take(m));
                    assert(a[m] == b[m]);
                } else {
                    assert forall|t: int| 0 <= t < a.len() implies a[t] == c[t] by {
                        assert(b.take(m)[t] == c.take(m)[t]);
                    }
                }
            } else {
                assert forall|t: int| 0 <= t < a.len() implies a[t] == c[t] by {
                    assert(a[t] == b[t]);
                }
            }
        }
    }
    if a != b && !index_order(a, b) && !index_order(b, a) {
        let n = if a.len() < b.len() { a.len() } else { b.len() };
        if exists|t: int| 0 <= t < n && a[t] != b[t] {
            let t0 = choose|t: int| 0 <= t < n && a[t] != b[t];
            lemma_first_difference(a, b, t0);
        } else {
            if a.len() < b.len() {
                assert(a.is_prefix_of(b));
            } else if b.len() < a.len() {
                assert(b.is_prefix_of(a));
            } else {
                assert(a =~= b);
            }
        }
    }
}

/// Two lists that differ at `t` have a first difference, which orders them.
proof fn lemma_first_difference(a: Seq<usize>, b: Seq<usize>, t: int)
    requires
        0 <= t < a.len(),
        t < b.len(),
        a[t] != b[t],
    ensures
        lex_less(a, b) || lex_less(b, a),
    decreases t,
{
    if exists|u: int| 0 <= u < t && a[u] != b[u] {
        let u = choose|u: int| 0 <= u < t && a[u] != b[u];
        lemma_first_difference(a, b, u);
    } else {
        assert(a.take(t) =~= b.take(t));
    }
}

/// Some of the first `end` draws has a scalar at `rel`.
pub open spec fn drawn_before(draws: Seq<ModelResult>, end: int, rel: Seq<usize>) -> bool {
    exists|e: int| 0 <= e < end && #[trigger] scalar_at(draws[e], rel) is Some
}

proof fn lemma_draw_samples_empty(draws: Seq<ModelResult>, end: int, rel: Seq<usize>)
    requires
        0 <= end <= draws.len(),
        !drawn_before(draws, end, rel),
    ensures
        draw_samples(draws, end, rel) == Seq::<PosteriorSample>::empty(),
    decreases end,
{
    if end > 0 {
        assert(scalar_at(draws[end - 1], rel) is None);
        lemma_draw_samples_empty(draws, end - 1, rel);
    }
}

proof fn lemma_draw_samples_nonempty(draws: Seq<ModelResult>, end: int, rel: Seq<usize>, d: int)
    requires
        0 <= d < end <= draws.len(),
        scalar_at(draws[d], rel) is Some,
    ensures
        draw_samples(draws, end, rel).len() > 0,
    decreases end,
{
    if end - 1 > d {
        lemma_draw_samples_nonempty(draws, end - 1, rel, d);
    }
}

/// Every sample of `rel` from the first `end` draws is a scalar of its draw.
proof fn lemma_draw_samples_members(draws: Seq<ModelResult>, end: int, rel: Seq<usize>, k: int)
    requires
        0 <= end <= draws.len(),
        draws.len() <= usize::MAX,
        0 <= k < draw_samples(draws, end, rel).len(),
    ensures
        draw_samples(draws, end, rel)[k].draw_index < end,
        scalar_at(draws[draw_samples(draws, end, rel)[k].draw_index as int], rel) == Some(draw_samples(draws, end, rel)[k].value),
    decreases end,
{
    if end > 0 {
        let before = draw_samples(draws, end - 1, rel);
        if k < before.len() {
            lemma_draw_samples_members(draws, end - 1, rel, k);
        }
    }
}

/// `out` groups the first `end` draws by instance.
pub open spec fn grouped_before(draws: Seq<ModelResult>, end: int, out: Seq<NodeInstanceSamples>) -> bool {
    &&& forall|a: int, b: int| 0 <= a < b < out.len() ==> index_order((#[trigger] out[a]).indices@, (#[trigger] out[b]).indices@)
    &&& forall|j: int| 0 <= j < out.len() ==> (#[trigger] out[j]).samples@ == draw_samples(draws, end, out[j].indices@)
    &&& forall|j: int| 0 <= j < out.len() ==> drawn_before(draws, end, (#[trigger] out[j]).indices@)
    &&& forall|rel: Seq<usize>| #[trigger] drawn_before(draws, end, rel) ==> exists|j: int| 0 <= j < out.len() && (#[trigger] out[j]).indices@ == rel
}

/// One of the first `q` entries is at position `rel`.
pub open spec fn visited(entries: Seq<(Vec<usize>, u64)>, q: int, rel: Seq<usize>) -> bool {
    exists|p: int| 0 <= p < q && (#[trigger] entries[p]).0@ == rel
}

/// The samples of instance `rel` after the first `d` draws and, if visited, draw `d`.
pub open spec fn samples_so_far(draws: Seq<ModelResult>, d: int, entries: Seq<(Vec<usize>, u64)>, q: int, rel: Seq<usize>) -> Seq<PosteriorSample> {
    if visited(entries, q, rel) {
        draw_samples(draws, d, rel).push(PosteriorSample { draw_index: d as usize, value: scalar_at(draws[d], rel).unwrap() })
    } else {
        draw_samples(draws, d, rel)
    }
}

/// The grouping after the first `d` draws and the first `q` entries of draw `d`.
pub open spec fn merging(draws: Seq<ModelResult>, d: int, entries: Seq<(Vec<usize>, u64)>, q: int, out: Seq<NodeInstanceSamples>) -> bool {
    &&& forall|a: int, b: int| 0 <= a < b < out.len() ==> index_order((#[trigger] out[a]).indices@, (#[trigger] out[b]).indices@)
    &&& forall|j: int| 0 <= j < out.len() ==> (#[trigger] out[j]).samples@ == samples_so_far(draws, d, entries, q, out[j].indices@)
    &&& forall|j: int| 0 <= j < out.len() ==> drawn_before(draws, d, (#[trigger] out[j]).indices@) || visited(entries, q, out[j].indices@)
    &&& forall|rel: Seq<usize>| drawn_before(draws, d, rel) || visited(entries, q, rel)
        ==> exists|j: int| 0 <= j < out.len() && (#[trigger] out[j]).indices@ == rel
}

/// The position of the instance at `rel`, if listed.
fn find_instance(instances: &Vec<NodeInstanceSamples>, rel: &Vec<usize>) -> (pos: Option<usize>)
    ensures
        pos matches Some(j) ==> j < instances@.len() && instances@[j as int].indices@ == rel@,
        pos is None ==> forall|j: int| 0 <= j < instances@.len() ==> (#[trigger] instances@[j]).indices@ != rel@,
{
    let mut j: usize = 0;
    while j < instances.len()
        invariant
            j <= instances@.len(),
            forall|k: int| 0 <= k < j ==> (#[trigger] instances@[k]).indices@ != rel@,
        decreases instances@.len() - j,
    {
        if crate::instance_plan::same_indices(&instances[j].indices, rel) {
            return Some(j);
        }
        j = j + 1;
    }
    None
}

/// The position where `rel` goes among instances in index order.
fn insert_position(instances: &Vec<NodeInstanceSamples>, rel: &Vec<usize>) -> (pos: usize)
    ensures
        pos <= instances@.len(),
        forall|j: int| 0 <= j < pos ==> !index_order(rel@, (#[trigger] instances@[j]).indices@),
        pos < instances@.len() ==> index_order(rel@, instances@[pos as int].indices@),
{
    let mut j: usize = 0;
    while j < instances.len()
        invariant
            j <= instances@.len(),
            forall|k: int| 0 <= k < j ==> !index_order(rel@, (#[trigger] instances@[k]).indices@),
        decreases instances@.len() - j,
    {
        if index_before(rel, &instances[j].indices) {
            return j;
        }
        j = j + 1;
    }
    j
}


/// Adding the first sample of a new instance at its place in index order.
#[verifier::rlimit(40)]
proof fn lemma_merge_new(
    draws: Seq<ModelResult>,
    d: int,
    e: Seq<(Vec<usize>, u64)>,
    q: int,
    before: Seq<NodeInstanceSamples>,
    after: Seq<NodeInstanceSamples>,
    pos: int,
)
    requires
        0 <= d < draws.len() <= usize::MAX,
        0 <= q < e.len(),
        merging(draws, d, e, q, before),
        !visited(e, q, e[q].0@),
        scalar_at(draws[d], e[q].0@) == Some(e[q].1),
        forall|j: int| 0 <= j < before.len() ==> (#[trigger] before[j]).indices@ != e[q].0@,
        0 <= pos <= before.len(),
        forall|j: int| 0 <= j < pos ==> !index_order(e[q].0@, (#[trigger] before[j]).indices@),
        pos < before.len() ==> index_order(e[q].0@, before[pos].indices@),
        after.len() == before.len() + 1,
        forall|k: int| 0 <= k < pos ==> after[k] == before[k],
        forall|k: int| pos < k < after.len() ==> after[k] == before[k - 1],
        after[pos].indices@ == e[q].0@,
        after[pos].samples@ == seq![PosteriorSample { draw_index: d as usize, value: e[q].1 }],
    ensures
        merging(draws, d, e, q + 1, after),
{
    let r = e[q].0@;
    let v = e[q].1;
    
    
        assert(!drawn_before(draws, d as int, r)) by {
            if drawn_before(draws, d as int, r) {
                let k = choose|k: int| 0 <= k < before.len() && (#[trigger] before[k]).indices@ == r;
            }
        }
        lemma_draw_samples_empty(draws, d as int, r);
        assert forall|x: Seq<usize>| x != r implies visited(e, q + 1, x) == visited(e, q as int, x) by {
            if visited(e, q + 1, x) {
                let p = choose|p: int| 0 <= p < q + 1 && (#[trigger] e[p]).0@ == x;
            }
        }
        assert(visited(e, q + 1, r)) by { assert(e[q as int].0@ == r); }
        assert(after.len() == before.len() + 1);
        assert forall|k: int| 0 <= k < pos implies after[k] == before[k] by {}
        assert forall|k: int| pos < k < after.len() implies after[k] == before[k - 1] by {}
        assert(after[pos as int].indices@ == r);
        assert(after[pos as int].samples@ =~= samples_so_far(draws, d as int, e, q + 1, r));
        assert forall|k: int| 0 <= k < after.len() implies (#[trigger] after[k]).samples@ == samples_so_far(draws, d as int, e, q + 1, after[k].indices@) by {
            if k < pos {
                assert(before[k].indices@ != r);
                assert(before[k].samples@ == samples_so_far(draws, d as int, e, q as int, before[k].indices@));
            } else if k > pos {
                assert(before[k - 1].indices@ != r);
                assert(before[k - 1].samples@ == samples_so_far(draws, d as int, e, q as int, before[k - 1].indices@));
            }
        }
        assert forall|a: int, b: int| 0 <= a < b < after.len() implies index_order((#[trigger] after[a]).indices@, (#[trigger] after[b]).indices@) by {
            if a < pos && b < pos {
                assert(index_order(before[a].indices@, before[b].indices@));
            } else if a < pos && b == pos {
                assert(!index_order(r, before[a].indices@));
                assert(before[a].indices@ != r);
                lemma_index_order(before[a].indices@, r, r);
            } else if a < pos && b > pos {
                assert(index_order(before[a].indices@, before[b - 1].indices@));
            } else if a == pos {
                assert(index_order(r, before[pos as int].indices@));
                if b - 1 > pos {
                    assert(index_order(before[pos as int].indices@, before[b - 1].indices@));
                    lemma_index_order(r, before[pos as int].indices@, before[b - 1].indices@);
                }
            } else {
                assert(index_order(before[a - 1].indices@, before[b - 1].indices@));
            }
        }
        assert forall|k: int| 0 <= k < after.len() implies drawn_before(draws, d as int, (#[trigger] after[k]).indices@) || visited(e, q + 1, after[k].indices@) by {
            if k < pos {
                assert(drawn_before(draws, d as int, before[k].indices@) || visited(e, q as int, before[k].indices@));
                assert(before[k].indices@ != r);
            } else if k > pos {
                assert(drawn_before(draws, d as int, before[k - 1].indices@) || visited(e, q as int, before[k - 1].indices@));
                assert(before[k - 1].indices@ != r);
            }
        }
        assert forall|x: Seq<usize>| drawn_before(draws, d as int, x) || visited(e, q + 1, x)
            implies exists|k: int| 0 <= k < after.len() && (#[trigger] after[k]).indices@ == x by {
            if x == r {
                assert(after[pos as int].indices@ == x);
            } else {
                assert(visited(e, q + 1, x) == visited(e, q as int, x));
                assert(drawn_before(draws, d as int, x) || visited(e, q as int, x));
                let k = choose|k: int| 0 <= k < before.len() && (#[trigger] before[k]).indices@ == x;
                if k < pos {
                    assert(after[k] == before[k]);
                    assert(after[k].indices@ == x);
                } else {
                    assert(after[k + 1] == before[k]);
                    assert(after[k + 1].indices@ == x);
                }
            }
        }
        assert(merging(draws, d as int, e, q + 1, after));
    assert(merging(draws, d as int, e, q + 1, after));
}

/// Adding a sample to an instance that is already listed.
#[verifier::rlimit(40)]
proof fn lemma_merge_existing(
    draws: Seq<ModelResult>,
    d: int,
    e: Seq<(Vec<usize>, u64)>,
    q: int,
    before: Seq<NodeInstanceSamples>,
    after: Seq<NodeInstanceSamples>,
    j: int,
)
    requires
        0 <= d < draws.len() <= usize::MAX,
        0 <= q < e.len(),
        merging(draws, d, e, q, before),
        !visited(e, q, e[q].0@),
        scalar_at(draws[d], e[q].0@) == Some(e[q].1),
        0 <= j < before.len(),
        before[j].indices@ == e[q].0@,
        after.len() == before.len(),
        forall|k: int| 0 <= k < after.len() && k != j ==> after[k] == before[k],
        after[j].indices@ == before[j].indices@,
        after[j].samples@ == before[j].samples@.push(PosteriorSample { draw_index: d as usize, value: e[q].1 }),
    ensures
        merging(draws, d, e, q + 1, after),
{
    let r = e[q].0@;
    let v = e[q].1;
    
        assert(after.len() == before.len());
        assert forall|k: int| 0 <= k < after.len() && k != j implies after[k] == before[k] by {}
        assert forall|k: int| 0 <= k < after.len() implies (#[trigger] after[k]).indices@ == before[k].indices@ by {}
        assert forall|x: Seq<usize>| x != r implies visited(e, q + 1, x) == visited(e, q as int, x) by {
            if visited(e, q + 1, x) {
                let p = choose|p: int| 0 <= p < q + 1 && (#[trigger] e[p]).0@ == x;
            }
        }
        assert(visited(e, q + 1, r)) by { assert(e[q as int].0@ == r); }
        assert forall|k: int| 0 <= k < after.len() implies (#[trigger] after[k]).samples@ == samples_so_far(draws, d as int, e, q + 1, after[k].indices@) by {
            if k == j {
                assert(before[k].samples@ == samples_so_far(draws, d as int, e, q as int, r));
            } else {
                assert(before[k].indices@ != r) by {
                    lemma_index_order(before[k].indices@, r, r);
                    if k < j {
                        assert(index_order(before[k].indices@, before[j as int].indices@));
                    } else {
                        assert(index_order(before[j as int].indices@, before[k].indices@));
                    }
                }
                assert(before[k].samples@ == samples_so_far(draws, d as int, e, q as int, before[k].indices@));
            }
        }
        assert forall|a: int, b: int| 0 <= a < b < after.len() implies index_order((#[trigger] after[a]).indices@, (#[trigger] after[b]).indices@) by {
            assert(index_order(before[a].indices@, before[b].indices@));
        }
        assert forall|k: int| 0 <= k < after.len() implies drawn_before(draws, d as int, (#[trigger] after[k]).indices@) || visited(e, q + 1, after[k].indices@) by {
            if after[k].indices@ != r {
                assert(drawn_before(draws, d as int, before[k].indices@) || visited(e, q as int, before[k].indices@));
            }
        }
        assert forall|x: Seq<usize>| drawn_before(draws, d as int, x) || visited(e, q + 1, x)
            implies exists|k: int| 0 <= k < after.len() && (#[trigger] after[k]).indices@ == x by {
            if x == r {
                assert(after[j as int].indices@ == x);
            } else {
                assert(visited(e, q + 1, x) == visited(e, q as int, x));
                assert(drawn_before(draws, d as int, x) || visited(e, q as int, x));
                let k = choose|k: int| 0 <= k < before.len() && (#[trigger] before[k]).indices@ == x;
                assert(after[k].indices@ == before[k].indices@);
            }
        }
        assert(merging(draws, d as int, e, q + 1, after));
    assert(merging(draws, d as int, e, q + 1, after));
}

/// Adds the scalars of draw `d`, listed in `entries`, to the grouping of the
/// earlier draws.
#[verifier::rlimit(60)]
fn add_draw(instances: &mut Vec<NodeInstanceSamples>, entries: &Vec<(Vec<usize>, u64)>, d: usize, Ghost(draws): Ghost<Seq<ModelResult>>)
    requires
        d < draws.len() <= usize::MAX,
        grouped_before(draws, d as int, old(instances)@),
        forall|k: int| 0 <= k < entries@.len() ==> scalar_at(draws[d as int], (#[trigger] entries@[k]).0@) == Some(entries@[k].1),
        forall|rel: Seq<usize>| #[trigger] scalar_at(draws[d as int], rel) is Some ==> exists|k: int| 0 <= k < entries@.len() && (#[trigger] entries@[k]).0@ == rel,
        forall|a: int, b: int| 0 <= a < b < entries@.len() ==> (#[trigger] entries@[a]).0@ != (#[trigger] entries@[b]).0@,
    ensures
        grouped_before(draws, d + 1, final(instances)@),
{
    let ghost e = entries@;
    proof {
        assert forall|j: int| 0 <= j < instances@.len() implies (#[trigger] instances@[j]).samples@ == samples_so_far(draws, d as int, e, 0, instances@[j].indices@) by {}
    }
    let mut q: usize = 0;
    while q < entries.len()
        invariant
            d < draws.len() <= usize::MAX,
            e == entries@,
            q <= e.len(),
            forall|k: int| 0 <= k < e.len() ==> scalar_at(draws[d as int], (#[trigger] e[k]).0@) == Some(e[k].1),
            forall|a: int, b: int| 0 <= a < b < e.len() ==> (#[trigger] e[a]).0@ != (#[trigger] e[b]).0@,
            merging(draws, d as int, e, q as int, instances@),
        decreases e.len() - q,
    {
        let rel = &entries[q].0;
        let v = entries[q].1;
        let ghost before = instances@;
        let ghost r = rel@;
        let sample = PosteriorSample { draw_index: d, value: v };
        proof {
            assert(!visited(e, q as int, r)) by {
                if visited(e, q as int, r) {
                    let p = choose|p: int| 0 <= p < q && (#[trigger] e[p]).0@ == r;
                }
            }
            assert(scalar_at(draws[d as int], r) == Some(v));
        }
        match find_instance(instances, rel) {
            Some(j) => {
                let mut inst = instances.remove(j);
                inst.samples.push(sample);
                instances.insert(j, inst);
                proof {
                    lemma_merge_existing(draws, d as int, e, q as int, before, instances@, j as int);
                }
            },
            None => {
                let pos = insert_position(instances, rel);
                let mut samples: Vec<PosteriorSample> = Vec::new();
                samples.push(sample);
                let inst = NodeInstanceSamples { indices: crate::util::copy_usizes(rel), samples };
                instances.insert(pos, inst);
                proof {
                    lemma_merge_new(draws, d as int, e, q as int, before, instances@, pos as int);
                }
            },
        }
        q = q + 1;
    }
    proof {
        let out = instances@;
        let n = e.len() as int;
        assert forall|x: Seq<usize>| visited(e, n, x) <==> scalar_at(draws[d as int], x) is Some by {
            if visited(e, n, x) {
                let p = choose|p: int| 0 <= p < n && (#[trigger] e[p]).0@ == x;
            }
        }
        assert forall|x: Seq<usize>| drawn_before(draws, d + 1, x) <==> (drawn_before(draws, d as int, x) || visited(e, n, x)) by {
            if drawn_before(draws, d + 1, x) {
                let f = choose|f: int| 0 <= f < d + 1 && #[trigger] scalar_at(draws[f], x) is Some;
                if f == d {
                    assert(visited(e, n, x));
                }
            }
            if drawn_before(draws, d as int, x) {
                let f = choose|f: int| 0 <= f < d && #[trigger] scalar_at(draws[f], x) is Some;
            }
            if visited(e, n, x) {
                assert(scalar_at(draws[d as int], x) is Some);
            }
        }
        assert forall|j: int| 0 <= j < out.len() implies (#[trigger] out[j]).samples@ == draw_samples(draws, d + 1, out[j].indices@) by {
            let x = out[j].indices@;
            assert(out[j].samples@ == samples_so_far(draws, d as int, e, n, x));
        }
        assert forall|j: int| 0 <= j < out.len() implies drawn_before(draws, d + 1, (#[trigger] out[j]).indices@) by {
            assert(drawn_before(draws, d as int, out[j].indices@) || visited(e, n, out[j].indices@));
        }
        assert forall|x: Seq<usize>| #[trigger] drawn_before(draws, d + 1, x) implies exists|j: int| 0 <= j < out.len() && (#[trigger] out[j]).indices@ == x by {
            assert(drawn_before(draws, d as int, x) || visited(e, n, x));
        }
    }
}

/// A draw with a scalar at `rel` contributes a sample of `rel`.
proof fn lemma_draw_samples_complete(draws: Seq<ModelResult>, end: int, rel: Seq<usize>, d: int)
    requires
        0 <= d < end <= draws.len(),
        draws.len() <= usize::MAX,
        scalar_at(draws[d], rel) is Some,
    ensures
        exists|k: int| 0 <= k < draw_samples(draws, end, rel).len()
            && (#[trigger] draw_samples(draws, end, rel)[k]).draw_index == d
            && draw_samples(draws, end, rel)[k].value == scalar_at(draws[d], rel).unwrap(),
    decreases end,
{
    let before = draw_samples(draws, end - 1, rel);
    if d == end - 1 {
        let k = before.len() as int;
        assert(draw_samples(draws, end, rel)[k].draw_index == d);
    } else {
        lemma_draw_samples_complete(draws, end - 1, rel, d);
        let k = choose|k: int| 0 <= k < before.len() && (#[trigger] before[k]).draw_index == d
            && before[k].value == scalar_at(draws[d], rel).unwrap();
        assert(draw_samples(draws, end, rel)[k] == before[k]);
    }
}

/// Index order never holds both ways, nor of a path and itself.
proof fn lemma_index_order_asymmetric(a: Seq<usize>, b: Seq<usize>)
    requires
        index_order(a, b),
    ensures
        !index_order(b, a),
        a != b,
{
    if lex_less(a, b) {
        let i = choose|i: int| 0 <= i < a.len() && i < b.len() && #[trigger] a.take(i) == b.take(i) && a[i] < b[i];
        if lex_less(b, a) {
            let i2 = choose|i2: int| 0 <= i2 < b.len() && i2 < a.len() && #[trigger] b.take(i2) == a.take(i2) && b[i2] < a[i2];
            if i < i2 {
                assert(b.take(i2)[i] == a.take(i2)[i]);
            } else if i2 < i {
                assert(a.take(i)[i2] == b.take(i)[i2]);
            }
        }
        if b.len() < a.len() && b.is_prefix_of(a) {
            assert(a[i] == b[i]);
        }
    } else {
        if lex_less(b, a) {
            let i2 = choose|i2: int| 0 <= i2 < b.len() && i2 < a.len() && #[trigger] b.take(i2) == a.take(i2) && b[i2] < a[i2];
            assert(a[i2] == b[i2]);
        }
    }
}

/// The error text for an instance with a non-finite sample.
pub open spec fn non_finite_message(rel: Seq<usize>) -> Seq<char> {
    "node instance "@ + index_list(rel) + " contains non-finite values"@
}

/// No instance before `rel` in index order holds a non-finite value in any draw.
pub open spec fn first_non_finite(draws: Seq<ModelResult>, rel: Seq<usize>) -> bool {
    forall|d: int, r: Seq<usize>| 0 <= d < draws.len() && #[trigger] scalar_at(draws[d], r) is Some && index_order(r, rel)
        ==> finite_bits(scalar_at(draws[d], r).unwrap())
}

impl InferenceResult {
    /// The retained draws of node `node_id` grouped by concrete scalar instance:
    /// the instances in increasing index order, each with its samples in draw
    /// order. Fails when the node has no draws or a draw holds a non-finite value.
    pub fn samples_for_node(&self, node_id: u32) -> (result: Result<Vec<NodeInstanceSamples>, String>)
        ensures
            result is Ok <==> self.samples_by_node@.contains_key(node_id) && draws_finite(self.samples_by_node@[node_id]@),
            result matches Ok(out) ==> grouped(self.samples_by_node@[node_id]@, out@),
            result matches Err(msg) ==> if !self.samples_by_node@.contains_key(node_id) {
                msg@ == "inference results do not contain node "@ + decimal(node_id as nat)
            } else {
                exists|d: int, rel: Seq<usize>| 0 <= d < self.samples_by_node@[node_id]@.len()
                    && #[trigger] scalar_at(self.samples_by_node@[node_id]@[d], rel) is Some
                    && !finite_bits(scalar_at(self.samples_by_node@[node_id]@[d], rel).unwrap())
                    && msg@ == non_finite_message(rel)
                    && first_non_finite(self.samples_by_node@[node_id]@, rel)
            },
    {
        let draws = match self.samples_by_node.get(&node_id) {
            Some(draws) => draws,
            None => {
                let mut msg = String::new();
                push_str(&mut msg, "inference results do not contain node ");
                push_decimal(&mut msg, node_id as u64);
                proof { reveal_strlit("inference results do not contain node "); }
                return Err(msg);
            },
        };
        let ghost dr = draws@;
        assert(dr.len() == draws.len());
        let mut instances: Vec<NodeInstanceSamples> = Vec::new();
        let mut d: usize = 0;
        while d < draws.len()
            invariant
                dr == draws@,
                d <= dr.len() <= usize::MAX,
                grouped_before(dr, d as int, instances@),
            decreases dr.len() - d,
        {
            let mut entries: Vec<(Vec<usize>, u64)> = Vec::new();
            let mut start: Vec<usize> = Vec::new();
            flatten_into(&draws[d], &mut start, &mut entries);
            proof {
                assert(entries@.take(0) =~= Seq::<(Vec<usize>, u64)>::empty());
                assert forall|k: int| 0 <= k < entries@.len() implies scalar_at(dr[d as int], (#[trigger] entries@[k]).0@) == Some(entries@[k].1) by {
                    assert(flat_entry_ok(entries@, k, dr[d as int], Seq::empty()));
                    assert(entries@[k].0@.skip(0) =~= entries@[k].0@);
                }
                assert forall|rel: Seq<usize>| #[trigger] scalar_at(dr[d as int], rel) is Some
                    implies exists|k: int| 0 <= k < entries@.len() && (#[trigger] entries@[k]).0@ == rel by {
                    assert(Seq::<usize>::empty() + rel =~= rel);
                }
            }
            add_draw(&mut instances, &entries, d, Ghost(dr));
            d = d + 1;
        }
        let mut j: usize = 0;
        while j < instances.len()
            invariant
                dr == draws@,
                self.samples_by_node@.contains_key(node_id),
                dr == self.samples_by_node@[node_id]@,
                dr.len() <= usize::MAX,
                grouped_before(dr, dr.len() as int, instances@),
                j <= instances@.len(),
                forall|q: int, k: int| 0 <= q < j && 0 <= k < instances@[q].samples@.len()
                    ==> finite_bits(#[trigger] instances@[q].samples@[k].value),
            decreases instances@.len() - j,
        {
            let inst = &instances[j];
            let ghost rel = inst.indices@;
            if inst.samples.len() == 0 {
                proof {
                    let e = choose|e: int| 0 <= e < dr.len() && #[trigger] scalar_at(dr[e], rel) is Some;
                    lemma_draw_samples_nonempty(dr, dr.len() as int, rel, e);
                }
                let mut msg = String::new();
                push_str(&mut msg, "cannot display an empty posterior");
                return Err(msg);
            }
            let mut k: usize = 0;
            while k < inst.samples.len()
                invariant
                    dr.len() <= usize::MAX,
                    self.samples_by_node@.contains_key(node_id),
                    dr == self.samples_by_node@[node_id]@,
                    *inst == instances@[j as int],
                    j < instances@.len(),
                    inst.samples@ == draw_samples(dr, dr.len() as int, rel),
                    rel == inst.indices@,
                    k <= inst.samples@.len(),
                    forall|t: int| 0 <= t < k ==> finite_bits(#[trigger] inst.samples@[t].value),
                    grouped_before(dr, dr.len() as int, instances@),
                    forall|q: int, t: int| 0 <= q < j && 0 <= t < instances@[q].samples@.len()
                        ==> finite_bits(#[trigger] instances@[q].samples@[t].value),
                decreases inst.samples@.len() - k,
            {
                if !is_finite_bits(inst.samples[k].value) {
                    let mut msg = String::new();
                    push_str(&mut msg, "node instance ");
                    push_index_list(&mut msg, &inst.indices);
                    push_str(&mut msg, " contains non-finite values");
                    proof {
                        reveal_strlit("node instance ");
                        reveal_strlit(" contains non-finite values");
                        lemma_draw_samples_members(dr, dr.len() as int, rel, k as int);
                        let di = inst.samples@[k as int].draw_index as int;
                        assert(scalar_at(dr[di], rel) is Some);
                        assert(!draws_finite(dr));
                        assert forall|d2: int, r2: Seq<usize>| 0 <= d2 < dr.len() && #[trigger] scalar_at(dr[d2], r2) is Some
                            && index_order(r2, rel) implies finite_bits(scalar_at(dr[d2], r2).unwrap()) by {
                            assert(drawn_before(dr, dr.len() as int, r2));
                            let q = choose|q: int| 0 <= q < instances@.len() && (#[trigger] instances@[q]).indices@ == r2;
                            if q > j {
                                assert(index_order(instances@[j as int].indices@, instances@[q].indices@));
                                lemma_index_order_asymmetric(r2, rel);
                            } else if q == j {
                                lemma_index_order_asymmetric(r2, rel);
                            }
                            lemma_draw_samples_complete(dr, dr.len() as int, r2, d2);
                            let t = choose|t: int| 0 <= t < draw_samples(dr, dr.len() as int, r2).len()
                                && (#[trigger] draw_samples(dr, dr.len() as int, r2)[t]).draw_index == d2
                                && draw_samples(dr, dr.len() as int, r2)[t].value == scalar_at(dr[d2], r2).unwrap();
                            assert(instances@[q].samples@ == draw_samples(dr, dr.len() as int, r2));
                            assert(finite_bits(instances@[q].samples@[t].value));
                        }
                    }
                    return Err(msg);
                }
                k = k + 1;
            }
            j = j + 1;
        }
        proof {
            assert forall|e: int, rel: Seq<usize>| 0 <= e < dr.len() && #[trigger] scalar_at(dr[e], rel) is Some
                implies finite_bits(scalar_at(dr[e], rel).unwrap()) by {
                assert(drawn_before(dr, dr.len() as int, rel));
                let q = choose|q: int| 0 <= q < instances@.len() && (#[trigger] instances@[q]).indices@ == rel;
                lemma_draw_samples_complete(dr, dr.len() as int, rel, e);
                let k = choose|k: int| 0 <= k < draw_samples(dr, dr.len() as int, rel).len()
                    && (#[trigger] draw_samples(dr, dr.len() as int, rel)[k]).draw_index == e
                    && draw_samples(dr, dr.len() as int, rel)[k].value == scalar_at(dr[e], rel).unwrap();
                assert(instances@[q].samples@[k].value == scalar_at(dr[e], rel).unwrap());
            }
            assert forall|rel: Seq<usize>| #[trigger] is_drawn(dr, rel) <==> drawn_before(dr, dr.len() as int, rel) by {
                if is_drawn(dr, rel) {
                    let e = choose|e: int| 0 <= e < dr.len() && #[trigger] scalar_at(dr[e], rel) is Some;
                }
                if drawn_before(dr, dr.len() as int, rel) {
                    let e = choose|e: int| 0 <= e < dr.len() && #[trigger] scalar_at(dr[e], rel) is Some;
                }
            }
        }
        Ok(instances)
    }
}

} // verus!
