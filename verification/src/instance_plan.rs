//! The order in which the model evaluates node instances: each scope's own nodes
//! in dependency order for the current row indices, then every row of each child
//! plate in increasing plate id order.
use crate::cycles::{acyclic, is_cycle};
use crate::graph_checks::{lemma_order_complete_iff_acyclic, lemma_order_respects_dependencies, smallest_ready_order};
use crate::graph_ir::{dependencies, producers, references_missing, DataColumn, GraphIR, NodeIR};
use crate::plate_errors::PlateError;
use crate::scopes::{dependencies_scoped, dependency_violation};
use crate::text::{id_list, push_id_list};
use crate::plate_validation::plate_violation;
use crate::model_plan::{compiled_params, compiled_params_ok, CompiledParam};
use crate::normalize::{
    child_plate_ids, is_plate_chain, lemma_chain_no_duplicates, lemma_node_path_unique, node_path_ok, normalized_ok,
    root_scope_ok, scope_of_plate, scope_plate_id, NormalizedPlate, NormalizedPlates, NormalizedScope,
};
use crate::plate_validation::{child_graph, owns, parent_of};
use crate::plate_validation::{find_column, has_column, plates_well_formed};
use crate::scopes::{all_scoped, consumer_scoped};
use crate::text::{debug_text, decimal, push_debug_str, push_decimal, push_str};
use vstd::prelude::*;

verus! {

broadcast use {vstd::std_specs::hash::group_hash_axioms, vstd::seq_lib::group_seq_properties};

/// One evaluation step of the model: a node instance and what it reads.
#[derive(Debug)]
pub struct InstanceStep {
    /// The graph key of the node.
    pub node_id: u32,
    pub node: NodeIR,
    pub params: Vec<CompiledParam>,
    /// The node's plate path.
    pub plate_ids: Vec<u32>,
    /// The row index in each plate of the path.
    pub indices: Vec<usize>,
    /// The dataset value bound to the instance, where its plate maps the node to
    /// a column; it is the bit pattern of an IEEE-754 binary64 number.
    pub data_value: Option<u64>,
}

/// `k` is the position of the first column named `name`.
pub open spec fn column_position(data: Seq<DataColumn>, name: Seq<char>, k: int) -> bool {
    &&& 0 <= k < data.len()
    &&& data[k].name@ == name
    &&& forall|j: int| 0 <= j < k ==> data[j].name@ != name
}

/// Node `n` is bound to a dataset column by the innermost plate of `path`.
pub open spec fn is_mapped(g: GraphIR, n: u32, path: Seq<u32>) -> bool {
    path.len() > 0 && g.plates@[path.last()].mapping@.contains_key(n)
}

/// The name of the column that binds node `n`.
pub open spec fn mapped_column(g: GraphIR, n: u32, path: Seq<u32>) -> Seq<char> {
    g.plates@[path.last()].mapping@[n]@
}

/// The dataset row that an instance of a mapped node reads.
pub open spec fn bound_row(g: GraphIR, n: u32, path: Seq<u32>, indices: Seq<usize>) -> Option<u64> {
    let p = g.plates@[path.last()];
    let name = mapped_column(g, n, path);
    if exists|k: int| column_position(p.data@, name, k) {
        let k = choose|k: int| column_position(p.data@, name, k);
        if indices.last() < p.data@[k].values@.len() {
            Some(p.data@[k].values@[indices.last() as int])
        } else {
            None
        }
    } else {
        None
    }
}

/// The instance can be built: its node is unmapped, or the mapped column has a
/// value at the instance's row.
pub open spec fn row_available(g: GraphIR, n: u32, path: Seq<u32>, indices: Seq<usize>) -> bool {
    is_mapped(g, n, path) ==> bound_row(g, n, path, indices) is Some
}

/// The dataset value bound to an instance, if any.
pub open spec fn bound_value(g: GraphIR, n: u32, path: Seq<u32>, indices: Seq<usize>) -> Option<u64> {
    if is_mapped(g, n, path) { bound_row(g, n, path, indices) } else { None }
}

/// The error text for a mapped column without a value at the row.
pub open spec fn missing_row_message(plate: u32, column: Seq<char>, row: nat) -> Seq<char> {
    "plate "@ + decimal(plate as nat) + " column "@ + debug_text(column) + " has no value at row "@ + decimal(row)
}

/// Every mapped column of every plate has a value for each of the plate's rows.
pub open spec fn data_complete(g: GraphIR) -> bool {
    forall|pid: u32, n: u32| #[trigger] g.plates@.contains_key(pid) && #[trigger] g.plates@[pid].mapping@.contains_key(n) ==> {
        let p = g.plates@[pid];
        exists|k: int| column_position(p.data@, p.mapping@[n]@, k) && p.data@[k].values@.len() >= p.n
    }
}

/// `s` is instance `s.indices` of node `s.node_id`, built from the graph.
pub open spec fn step_ok(g: GraphIR, paths: Map<u32, Vec<u32>>, s: InstanceStep) -> bool {
    &&& g.nodes@.contains_key(s.node_id)
    &&& same_node(s.node, g.nodes@[s.node_id])
    &&& paths.contains_key(s.node_id)
    &&& s.plate_ids@ == paths[s.node_id]@
    &&& s.indices@.len() == s.plate_ids@.len()
    &&& compiled_params_ok(paths, producers(g.nodes@[s.node_id]), s.params@)
    &&& forall|i: int| 0 <= i < s.params@.len() ==> (#[trigger] s.params@[i]).producer_plate_ids@.is_prefix_of(s.plate_ids@)
    &&& row_available(g, s.node_id, s.plate_ids@, s.indices@)
    &&& s.data_value == bound_value(g, s.node_id, s.plate_ids@, s.indices@)
}

/// `a` and `b` are the same node: same variant and equal fields, lists compared
/// by their elements.
pub open spec fn same_node(a: NodeIR, b: NodeIR) -> bool {
    match (a, b) {
        (NodeIR::Random { id: i1, label: l1, dist_type: d1, params: p1 },
         NodeIR::Random { id: i2, label: l2, dist_type: d2, params: p2 }) =>
            i1 == i2 && l1 == l2 && d1 == d2 && p1@ == p2@,
        (NodeIR::Scalar { id: i1, value: v1 }, NodeIR::Scalar { id: i2, value: v2 }) => i1 == i2 && v1 == v2,
        (NodeIR::Compute { id: i1, operation: o1, params: p1 },
         NodeIR::Compute { id: i2, operation: o2, params: p2 }) => i1 == i2 && o1 == o2 && p1@ == p2@,
        _ => false,
    }
}

/// A copy of a node.
pub fn clone_node(node: &NodeIR) -> (copy: NodeIR)
    ensures
        same_node(copy, *node),
        producers(copy) == producers(*node),
{
    match node {
        NodeIR::Random { id, label, dist_type, params } => {
            let label = match label {
                Some(text) => Some(text.clone()),
                None => None,
            };
            NodeIR::Random { id: *id, label, dist_type: dist_type.clone(), params: crate::graph_ir::copy_params(params) }
        },
        NodeIR::Scalar { id, value } => NodeIR::Scalar { id: *id, value: *value },
        NodeIR::Compute { id, operation, params } => {
            NodeIR::Compute { id: *id, operation: *operation, params: crate::graph_ir::copy_params(params) }
        },
    }
}

/// Instance `idx` of node `n` exists: one row index below the extent of each plate
/// of the node's path.
pub open spec fn is_instance(g: GraphIR, paths: Map<u32, Vec<u32>>, n: u32, idx: Seq<usize>) -> bool {
    &&& g.nodes@.contains_key(n)
    &&& paths.contains_key(n)
    &&& idx.len() == paths[n]@.len()
    &&& forall|j: int| 0 <= j < idx.len() ==> idx[j] < #[trigger] g.plates@[paths[n]@[j]].n
}

/// One of the first `end` steps is instance `idx` of node `n`.
pub open spec fn has_key(plan: Seq<InstanceStep>, end: int, n: u32, idx: Seq<usize>) -> bool {
    exists|k: int| 0 <= k < end && (#[trigger] plan[k]).node_id == n && plan[k].indices@ == idx
}

/// Each parameter of step `k` reads an instance produced by an earlier step.
pub open spec fn reads_before(plan: Seq<InstanceStep>, k: int) -> bool {
    forall|i: int| 0 <= i < plan[k].params@.len() ==> has_key(
        plan,
        k,
        (#[trigger] plan[k].params@[i]).from_node,
        plan[k].indices@.take(plan[k].params@[i].producer_depth as int),
    )
}

/// Every step is an instance built from the graph, and reads only instances that
/// earlier steps produced.
pub open spec fn plan_ok(g: GraphIR, paths: Map<u32, Vec<u32>>, plan: Seq<InstanceStep>) -> bool {
    forall|k: int| 0 <= k < plan.len() ==> step_ok(g, paths, #[trigger] plan[k]) && reads_before(plan, k)
}

/// `idx` holds one row index below the extent of each plate of `path`.
pub open spec fn indices_valid(g: GraphIR, path: Seq<u32>, idx: Seq<usize>) -> bool {
    &&& idx.len() == path.len()
    &&& forall|j: int| 0 <= j < idx.len() ==> idx[j] < #[trigger] g.plates@[path[j]].n
}

/// `scope` is the root scope for the empty path, and the scope of the last plate of
/// a plate chain otherwise.
pub open spec fn scope_at(g: GraphIR, scope: NormalizedScope, path: Seq<u32>) -> bool {
    if path.len() == 0 {
        root_scope_ok(g, scope)
    } else {
        is_plate_chain(g, path) && scope_of_plate(g, scope, path.last())
    }
}

/// The instances of the nodes enclosing `path` at the leading indices of `idx`
/// are produced by the steps of `plan`.
pub open spec fn ancestors_done(g: GraphIR, paths: Map<u32, Vec<u32>>, plan: Seq<InstanceStep>, path: Seq<u32>, idx: Seq<usize>) -> bool {
    forall|n: u32| #[trigger] g.nodes@.contains_key(n) && paths[n]@.len() < path.len() && paths[n]@.is_prefix_of(path)
        ==> has_key(plan, plan.len() as int, n, idx.take(paths[n]@.len() as int))
}

/// Every node of `order` comes after each node it depends on.
pub open spec fn deps_first(nodes: Map<u32, NodeIR>, order: Seq<u32>) -> bool {
    forall|i: int, p: u32| 0 <= i < order.len() && #[trigger] producers(nodes[order[i]]).contains(p)
        ==> exists|j: int| 0 <= j < i && order[j] == p
}

/// `order` lists every node once, each after the nodes it depends on.
pub open spec fn order_ok(g: GraphIR, order: Seq<u32>) -> bool {
    &&& order.no_duplicates()
    &&& order.to_set() == g.nodes@.dom()
    &&& deps_first(g.nodes@, order)
}

/// A node is a direct member of a scope exactly when its plate path is the scope's path.
proof fn lemma_scope_nodes(g: GraphIR, np: NormalizedPlates, scope: NormalizedScope, path: Seq<u32>, n: u32)
    requires
        plates_well_formed(g),
        normalized_ok(g, np),
        scope_at(g, scope, path),
        g.nodes@.contains_key(n),
    ensures
        scope.nodes@.contains(n) <==> np.node_paths@[n]@ == path,
{
    let paths = np.node_paths@;
    assert(paths.contains_key(n));
    assert(node_path_ok(g, n, paths[n]@));
    if path.len() == 0 {
        let unowned = g.nodes@.dom().filter(|m: u32| forall|q: u32| !#[trigger] owns(g.plates@, q, m));
        if scope.nodes@.contains(n) {
            assert(scope.nodes@.to_set().contains(n));
            assert(unowned.contains(n));
            assert(node_path_ok(g, n, path));
            lemma_node_path_unique(g, n, path, paths[n]@);
        }
        if paths[n]@ == path {
            assert(unowned.contains(n));
            assert(scope.nodes@.to_set().contains(n));
        }
    } else {
        let pid = path.last();
        if scope.nodes@.contains(n) {
            assert(scope.nodes@.to_set().contains(n));
            assert(g.plates@[pid].nodes@.to_set().contains(n));
            assert(owns(g.plates@, pid, n));
            assert(node_path_ok(g, n, path));
            lemma_node_path_unique(g, n, path, paths[n]@);
        }
        if paths[n]@ == path {
            assert(owns(g.plates@, pid, n));
            assert(g.plates@[pid].nodes@.to_set().contains(n));
            assert(scope.nodes@.to_set().contains(n));
        }
    }
}

/// A child scope is the scope of the path extended by the child's plate.
proof fn lemma_child_scope(g: GraphIR, scope: NormalizedScope, path: Seq<u32>, ci: int)
    requires
        plates_well_formed(g),
        scope_at(g, scope, path),
        0 <= ci < scope.children@.len(),
    ensures
        scope_at(g, scope.children@[ci], path.push(scope_plate_id(scope.children@[ci]))),
        g.plates@.contains_key(scope_plate_id(scope.children@[ci])),
        scope.children@[ci].plate == Some(NormalizedPlate {
            id: scope_plate_id(scope.children@[ci]),
            n: g.plates@[scope_plate_id(scope.children@[ci])].n,
        }),
{
    let child = scope.children@[ci];
    let c = scope_plate_id(child);
    let ids = child_plate_ids(scope.children@);
    assert(ids[ci] == c);
    assert(ids.to_set().contains(c));
    assert(scope_of_plate(g, child, c));
    let ext = path.push(c);
    if path.len() == 0 {
        assert(g.plates@.dom().contains(c));
        assert(ext =~= seq![c]);
    } else {
        let pid = path.last();
        assert(g.plates@[pid].plates@.to_set().contains(c));
        assert(parent_of(g.plates@, pid, c));
        assert(g.plates@.contains_key(c)) by {
            let q = choose|q: int| 0 <= q < g.plates@[pid].plates@.len() && g.plates@[pid].plates@[q] == c;
            assert(crate::plate_validation::plate_entry_ok(g.nodes@, g.plates@, pid));
            assert(g.plates@.contains_key(g.plates@[pid].plates@[q]));
        }
        assert forall|k: int| 0 <= k < ext.len() - 1 implies #[trigger] parent_of(g.plates@, ext[k], ext[k + 1]) by {
            if k < path.len() - 1 {
                assert(parent_of(g.plates@, path[k], path[k + 1]));
            }
        }
        assert(is_plate_chain(g, ext));
    }
}

/// A node nested deeper than a scope lies under one of the scope's children.
proof fn lemma_deeper_in_child(g: GraphIR, np: NormalizedPlates, scope: NormalizedScope, path: Seq<u32>, n: u32)
    requires
        plates_well_formed(g),
        normalized_ok(g, np),
        scope_at(g, scope, path),
        g.nodes@.contains_key(n),
        np.node_paths@[n]@.len() > path.len(),
        path.is_prefix_of(np.node_paths@[n]@),
    ensures
        child_plate_ids(scope.children@).contains(np.node_paths@[n]@[path.len() as int]),
{
    let p = np.node_paths@[n]@;
    assert(np.node_paths@.contains_key(n));
    assert(node_path_ok(g, n, p));
    let c = p[path.len() as int];
    let ids = child_plate_ids(scope.children@);
    if path.len() == 0 {
        assert(g.plates@.contains_key(p[0]));
        assert(ids.to_set().contains(c));
    } else {
        let m = path.len() - 1;
        assert(parent_of(g.plates@, p[m], p[m + 1]));
        assert(p[m] == path.last());
        assert(g.plates@[path.last()].plates@.contains(c));
        assert(ids.to_set().contains(c));
    }
}

/// Instance `idx` of node `n` lies under the scope instance `path` at `indices`.
pub open spec fn under(paths: Map<u32, Vec<u32>>, n: u32, idx: Seq<usize>, path: Seq<u32>, indices: Seq<usize>) -> bool {
    path.is_prefix_of(paths[n]@) && indices.is_prefix_of(idx)
}

/// No two of the steps from `from` up to `to` are the same instance.
pub open spec fn keys_distinct(plan: Seq<InstanceStep>, from: int, to: int) -> bool {
    forall|a: int, b: int| from <= a < b < to ==> !((#[trigger] plan[a]).node_id == (#[trigger] plan[b]).node_id
        && plan[a].indices@ == plan[b].indices@)
}

/// Instance `idx` of node `n` reads a dataset column that has no value at its row.
pub open spec fn missing_row(g: GraphIR, paths: Map<u32, Vec<u32>>, n: u32, idx: Seq<usize>) -> bool {
    is_instance(g, paths, n, idx) && is_mapped(g, n, paths[n]@) && !row_available(g, n, paths[n]@, idx)
}

proof fn lemma_has_key_grow(a: Seq<InstanceStep>, b: Seq<InstanceStep>, end_a: int, end_b: int, n: u32, idx: Seq<usize>)
    requires
        has_key(a, end_a, n, idx),
        0 <= end_a <= end_b,
        end_a <= a.len(),
        a.len() <= b.len(),
        b.take(a.len() as int) == a,
    ensures
        has_key(b, end_b, n, idx),
{
    let k = choose|k: int| 0 <= k < end_a && (#[trigger] a[k]).node_id == n && a[k].indices@ == idx;
    assert(b.take(a.len() as int)[k] == b[k]);
}

proof fn lemma_plan_ok_push(g: GraphIR, paths: Map<u32, Vec<u32>>, plan: Seq<InstanceStep>, step: InstanceStep)
    requires
        plan_ok(g, paths, plan),
        step_ok(g, paths, step),
        reads_before(plan.push(step), plan.len() as int),
    ensures
        plan_ok(g, paths, plan.push(step)),
{
    let b = plan.push(step);
    assert(b.take(plan.len() as int) =~= plan);
    assert forall|k: int| 0 <= k < b.len() implies step_ok(g, paths, #[trigger] b[k]) && reads_before(b, k) by {
        if k < plan.len() {
            assert(b[k] == plan[k]);
            assert(reads_before(plan, k));
            assert forall|i: int| 0 <= i < b[k].params@.len() implies has_key(b, k, (#[trigger] b[k].params@[i]).from_node,
                b[k].indices@.take(b[k].params@[i].producer_depth as int)) by {
                assert(plan[k].params@[i] == b[k].params@[i]);
                lemma_has_key_grow(plan, b, k, k, b[k].params@[i].from_node, b[k].indices@.take(b[k].params@[i].producer_depth as int));
            }
        }
    }
}

/// With complete datasets every instance can read its row.
proof fn lemma_complete_row(g: GraphIR, np: NormalizedPlates, n: u32, idx: Seq<usize>)
    requires
        plates_well_formed(g),
        normalized_ok(g, np),
        data_complete(g),
        is_instance(g, np.node_paths@, n, idx),
    ensures
        row_available(g, n, np.node_paths@[n]@, idx),
{
    let path = np.node_paths@[n]@;
    if is_mapped(g, n, path) {
        assert(node_path_ok(g, n, path));
        let pid = path.last();
        assert(g.plates@.contains_key(pid));
        assert(g.plates@[pid].mapping@.contains_key(n));
        let p = g.plates@[pid];
        let k = choose|k: int| column_position(p.data@, p.mapping@[n]@, k) && p.data@[k].values@.len() >= p.n;
        let c = choose|c: int| column_position(p.data@, p.mapping@[n]@, c);
        if c < k { assert(p.data@[c].name@ != p.mapping@[n]@); }
        if k < c { assert(p.data@[k].name@ != p.mapping@[n]@); }
        assert(idx[idx.len() - 1] < g.plates@[path[idx.len() - 1]].n);
    }
}

/// Missing rows do not depend on which vectors hold the plate paths.
proof fn lemma_missing_row_paths(g: GraphIR, np: NormalizedPlates, n: u32, idx: Seq<usize>)
    requires
        plates_well_formed(g),
        normalized_ok(g, np),
    ensures
        missing_row(g, np.node_paths@, n, idx) <==> missing_row(g, crate::normalize::plate_paths(g), n, idx),
{
    crate::normalize::lemma_plate_paths(g, np);
    if np.node_paths@.contains_key(n) {
        assert(crate::normalize::plate_paths(g)[n]@ == np.node_paths@[n]@);
    }
}

/// Whether two index lists are equal.
pub fn same_indices(a: &Vec<usize>, b: &Vec<usize>) -> (r: bool)
    ensures
        r == (a@ == b@),
{
    if a.len() != b.len() {
        return false;
    }
    let mut i: usize = 0;
    while i < a.len()
        invariant
            i <= a@.len(),
            a@.len() == b@.len(),
            forall|k: int| 0 <= k < i ==> a@[k] == b@[k],
        decreases a@.len() - i,
    {
        if a[i] != b[i] {
            return false;
        }
        i = i + 1;
    }
    assert(a@ =~= b@);
    true
}

/// The position of a step among the first `end` that is instance `indices` of `node_id`.
fn find_step(steps: &Vec<InstanceStep>, end: usize, node_id: u32, indices: &Vec<usize>) -> (pos: Option<usize>)
    requires
        end <= steps@.len(),
    ensures
        pos matches Some(p) ==> p < end && steps@[p as int].node_id == node_id && steps@[p as int].indices@ == indices@,
        pos is None ==> !has_key(steps@, end as int, node_id, indices@),
{
    let mut p: usize = 0;
    while p < end
        invariant
            p <= end <= steps@.len(),
            forall|k: int| 0 <= k < p ==> !((#[trigger] steps@[k]).node_id == node_id && steps@[k].indices@ == indices@),
        decreases end - p,
    {
        if steps[p].node_id == node_id && same_indices(&steps[p].indices, indices) {
            return Some(p);
        }
        p = p + 1;
    }
    None
}

/// For each step, the positions of the earlier steps its parameters read.
fn step_reads(steps: &Vec<InstanceStep>, Ghost(g): Ghost<GraphIR>, Ghost(paths): Ghost<Map<u32, Vec<u32>>>) -> (reads: Vec<Vec<usize>>)
    requires
        plan_ok(g, paths, steps@),
    ensures
        reads_ok(steps@, reads@),
{
    let mut reads: Vec<Vec<usize>> = Vec::new();
    let mut k: usize = 0;
    while k < steps.len()
        invariant
            k <= steps@.len(),
            plan_ok(g, paths, steps@),
            reads@.len() == k,
            forall|q: int| 0 <= q < k ==> (#[trigger] reads@[q])@.len() == steps@[q].params@.len(),
            forall|q: int, i: int| 0 <= q < k && 0 <= i < steps@[q].params@.len() ==> {
                let p = (#[trigger] reads@[q]@[i]) as int;
                &&& p < q
                &&& steps@[p].node_id == steps@[q].params@[i].from_node
                &&& steps@[p].indices@ == steps@[q].indices@.take(steps@[q].params@[i].producer_depth as int)
            },
        decreases steps@.len() - k,
    {
        let step = &steps[k];
        proof {
            assert(step_ok(g, paths, steps@[k as int]) && reads_before(steps@, k as int));
        }
        let mut row: Vec<usize> = Vec::new();
        let mut i: usize = 0;
        while i < step.params.len()
            invariant
                k < steps@.len(),
                *step == steps@[k as int],
                step_ok(g, paths, *step),
                reads_before(steps@, k as int),
                i <= step.params@.len(),
                row@.len() == i,
                forall|j: int| 0 <= j < i ==> {
                    let p = (#[trigger] row@[j]) as int;
                    &&& p < k
                    &&& steps@[p].node_id == step.params@[j].from_node
                    &&& steps@[p].indices@ == step.indices@.take(step.params@[j].producer_depth as int)
                },
            decreases step.params@.len() - i,
        {
            let param = &step.params[i];
            proof {
                assert(param.producer_plate_ids@.is_prefix_of(step.plate_ids@));
                assert(crate::model_plan::compiled_param_ok(paths, producers(g.nodes@[step.node_id])[i as int], *param));
            }
            let key = match crate::model_plan::param_instance_key(param, &step.indices) {
                Ok(key) => key,
                Err(_) => { proof { assert(false); } return reads; },
            };
            let found = find_step(steps, k, key.node_id, &key.indices);
            match found {
                Some(p) => { row.push(p); },
                None => {
                    proof { assert(has_key(steps@, k as int, param.from_node, step.indices@.take(param.producer_depth as int))); }
                    return reads;
                },
            }
            i = i + 1;
        }
        reads.push(row);
        k = k + 1;
    }
    reads
}

/// The plate path of a node and the extent of each of its plates.
#[derive(Debug)]
pub struct NodeShape {
    pub node_id: u32,
    pub plate_ids: Vec<u32>,
    pub extents: Vec<usize>,
}

/// `s` gives the stored plate path of its node and the extent of each plate.
pub open spec fn shape_ok(g: GraphIR, paths: Map<u32, Vec<u32>>, s: NodeShape) -> bool {
    &&& g.nodes@.contains_key(s.node_id)
    &&& paths.contains_key(s.node_id)
    &&& s.plate_ids@ == paths[s.node_id]@
    &&& s.extents@.len() == s.plate_ids@.len()
    &&& forall|j: int| 0 <= j < s.extents@.len() ==> s.extents@[j] == #[trigger] g.plates@[s.plate_ids@[j]].n
}

/// The compiled structure of a graph model.
#[derive(Debug)]
pub struct ModelPlan {
    /// The normalized plate tree and the plate path of every node.
    pub normalized: NormalizedPlates,
    /// Every node instance, in evaluation order.
    pub steps: Vec<InstanceStep>,
    /// The shape of every node, in increasing node id order.
    pub shapes: Vec<NodeShape>,
    /// For each step, the positions of the steps whose values its parameters read.
    pub reads: Vec<Vec<usize>>,
}

/// `reads` gives, for each step and parameter, an earlier step that produces the
/// parameter's instance.
pub open spec fn reads_ok(steps: Seq<InstanceStep>, reads: Seq<Vec<usize>>) -> bool {
    &&& reads.len() == steps.len()
    &&& forall|k: int| 0 <= k < steps.len() ==> (#[trigger] reads[k])@.len() == steps[k].params@.len()
    &&& forall|k: int, i: int| 0 <= k < steps.len() && 0 <= i < steps[k].params@.len() ==> {
        let p = (#[trigger] reads[k]@[i]) as int;
        &&& p < k
        &&& steps[p].node_id == steps[k].params@[i].from_node
        &&& steps[p].indices@ == steps[k].indices@.take(steps[k].params@[i].producer_depth as int)
    }
}

/// The graph is acyclic, refers only to its own nodes, and its plates and their
/// dependencies are valid.
pub open spec fn structure_ok(g: GraphIR) -> bool {
    &&& acyclic(dependencies(g.nodes@))
    &&& !references_missing(g.nodes@)
    &&& plates_well_formed(g)
    &&& dependencies_scoped(g)
}

/// The plan lists every instance of every node exactly once, in an order where
/// each instance comes after the instances it reads, and shapes every node.
pub open spec fn plan_complete(g: GraphIR, plan: ModelPlan) -> bool {
    let paths = plan.normalized.node_paths@;
    &&& normalized_ok(g, plan.normalized)
    &&& plan_ok(g, paths, plan.steps@)
    &&& keys_distinct(plan.steps@, 0, plan.steps@.len() as int)
    &&& forall|k: int| 0 <= k < plan.steps@.len() ==> is_instance(g, paths, (#[trigger] plan.steps@[k]).node_id, plan.steps@[k].indices@)
    &&& forall|n: u32, idx: Seq<usize>| #[trigger] is_instance(g, paths, n, idx) ==> has_key(plan.steps@, plan.steps@.len() as int, n, idx)
    &&& forall|k: int| 0 <= k < plan.shapes@.len() ==> shape_ok(g, paths, #[trigger] plan.shapes@[k])
    &&& reads_ok(plan.steps@, plan.reads@)
    &&& forall|a: int, b: int| 0 <= a < b < plan.shapes@.len() ==> (#[trigger] plan.shapes@[a]).node_id < (#[trigger] plan.shapes@[b]).node_id
    &&& forall|n: u32| #[trigger] g.nodes@.contains_key(n) ==> exists|k: int| 0 <= k < plan.shapes@.len() && (#[trigger] plan.shapes@[k]).node_id == n
}

/// `msg` is the message `create_model_plan` gives for a graph it refuses: the
/// first failing stage names a cycle, a missing node, a plate or scope violation,
/// or a missing dataset row.
pub open spec fn plan_error(g: GraphIR, msg: Seq<char>) -> bool {
    if !acyclic(dependencies(g.nodes@)) {
        exists|c: Seq<u32>| is_cycle(dependencies(g.nodes@), c)
            && msg == "graph contains a cycle including node IDs: "@ + #[trigger] id_list(c)
    } else if references_missing(g.nodes@) {
        exists|node: u32, missing: u32| #[trigger] producers(g.nodes@[node]).contains(missing)
            && g.nodes@.contains_key(node) && !g.nodes@.contains_key(missing)
            && msg == crate::graph_checks::MissingNodeError { node, missing }.message_spec()
    } else if !plates_well_formed(g) {
        exists|e: PlateError| #[trigger] plate_violation(g, e) && msg == e.message_spec()
    } else if !dependencies_scoped(g) {
        exists|e: PlateError| #[trigger] dependency_violation(g, e) && msg == e.message_spec()
    } else {
        exists|n: u32, idx: Seq<usize>| #[trigger] missing_row(g, crate::normalize::plate_paths(g), n, idx)
            && msg == missing_row_message(crate::normalize::plate_paths(g)[n]@.last(),
                mapped_column(g, n, crate::normalize::plate_paths(g)[n]@), idx.last() as nat)
    }
}

impl GraphIR {
    /// Builds the step for instance `indices` of node `node_id`, whose innermost
    /// plate is `plate`, reading its dataset value where the plate maps the node.
    fn instance_step(
        &self,
        np: &NormalizedPlates,
        node_id: u32,
        plate: Option<NormalizedPlate>,
        indices: &Vec<usize>,
        Ghost(path): Ghost<Seq<u32>>,
    ) -> (result: Result<InstanceStep, String>)
        requires
            plates_well_formed(*self),
            normalized_ok(*self, *np),
            consumer_scoped(*self, np.node_paths@, node_id),
            self.nodes@.contains_key(node_id),
            np.node_paths@[node_id]@ == path,
            indices@.len() == path.len(),
            path.len() == 0 ==> plate is None,
            path.len() > 0 ==> plate == Some(NormalizedPlate { id: path.last(), n: self.plates@[path.last()].n }),
            path.len() > 0 ==> self.plates@.contains_key(path.last()),
        ensures
            result is Ok <==> row_available(*self, node_id, path, indices@),
            result matches Ok(s) ==> s.node_id == node_id && s.indices@ == indices@ && step_ok(*self, np.node_paths@, s),
            result matches Err(msg) ==> msg@ == missing_row_message(path.last(), mapped_column(*self, node_id, path), indices@.last() as nat),
    {
        let node = self.nodes.get(&node_id).unwrap();
        let plate_ids = crate::util::copy_ids(np.node_paths.get(&node_id).unwrap());
        let params = match compiled_params(&crate::graph_ir::node_params(node), &np.node_paths) {
            Ok(params) => params,
            Err(msg) => {
                proof {
                    let ps = crate::graph_ir::node_params_spec(*node);
                    let i = choose|i: int| 0 <= i < ps.len() && !np.node_paths@.contains_key(#[trigger] ps[i].from_node);
                    assert(producers(*node)[i] == ps[i].from_node);
                }
                return Err(msg);
            },
        };
        let mut data_value: Option<u64> = None;
        match plate {
            Some(p) => {
                let plate_ir = self.plates.get(&p.id).unwrap();
                match plate_ir.mapping.get(&node_id) {
                    Some(column) => {
                        let row = indices[indices.len() - 1];
                        let found = find_column(&plate_ir.data, column);
                        let mut value: Option<u64> = None;
                        match found {
                            Some(k) => {
                                if row < plate_ir.data[k].values.len() {
                                    value = Some(plate_ir.data[k].values[row]);
                                }
                            },
                            None => {},
                        }
                        proof {
                            let name = column@;
                            match found {
                                Some(k) => {
                                    assert(column_position(plate_ir.data@, name, k as int));
                                    let c = choose|c: int| column_position(plate_ir.data@, name, c);
                                    if c < k { assert(plate_ir.data@[c].name@ != name); }
                                    if k < c { assert(plate_ir.data@[k as int].name@ != name); }
                                },
                                None => {
                                    if exists|c: int| column_position(plate_ir.data@, name, c) {
                                        let c = choose|c: int| column_position(plate_ir.data@, name, c);
                                        assert(has_column(plate_ir.data@, name));
                                    }
                                },
                            }
                            assert(value == bound_row(*self, node_id, path, indices@));
                        }
                        match value {
                            Some(v) => { data_value = Some(v); },
                            None => {
                                let mut msg = String::new();
                                push_str(&mut msg, "plate ");
                                push_decimal(&mut msg, p.id as u64);
                                push_str(&mut msg, " column ");
                                push_debug_str(&mut msg, column);
                                push_str(&mut msg, " has no value at row ");
                                push_decimal(&mut msg, row as u64);
                                proof {
                                    reveal_strlit("plate ");
                                    reveal_strlit(" column ");
                                    reveal_strlit(" has no value at row ");
                                }
                                return Err(msg);
                            },
                        }
                    },
                    None => {},
                }
            },
            None => {},
        }
        Ok(InstanceStep {
            node_id,
            node: clone_node(node),
            params,
            plate_ids,
            indices: crate::util::copy_usizes(indices),
            data_value,
        })
    }

    /// Appends the steps of scope `scope` at row indices `indices`: first the
    /// scope's own nodes in `order`, then each row of each child plate in
    /// increasing plate id order.
    #[verifier::rlimit(80)]
    fn compile_scope(
        &self,
        np: &NormalizedPlates,
        scope: &NormalizedScope,
        order: &Vec<u32>,
        indices: &Vec<usize>,
        plan: &mut Vec<InstanceStep>,
        Ghost(path): Ghost<Seq<u32>>,
    ) -> (result: Result<(), String>)
        requires
            plates_well_formed(*self),
            normalized_ok(*self, *np),
            all_scoped(*self, np.node_paths@),
            order_ok(*self, order@),
            scope_at(*self, *scope, path),
            indices_valid(*self, path, indices@),
            plan_ok(*self, np.node_paths@, old(plan)@),
            ancestors_done(*self, np.node_paths@, old(plan)@, path, indices@),
        ensures
            final(plan)@.len() >= old(plan)@.len(),
            final(plan)@.take(old(plan)@.len() as int) == old(plan)@,
            data_complete(*self) ==> result is Ok,
            result matches Err(msg) ==> exists|n: u32, idx: Seq<usize>|
                #[trigger] missing_row(*self, np.node_paths@, n, idx) && under(np.node_paths@, n, idx, path, indices@)
                && msg@ == missing_row_message(np.node_paths@[n]@.last(), mapped_column(*self, n, np.node_paths@[n]@), idx.last() as nat),
            result is Ok ==> {
                &&& plan_ok(*self, np.node_paths@, final(plan)@)
                &&& keys_distinct(final(plan)@, old(plan)@.len() as int, final(plan)@.len() as int)
                &&& forall|k: int| old(plan)@.len() <= k < final(plan)@.len() ==> {
                    &&& is_instance(*self, np.node_paths@, (#[trigger] final(plan)@[k]).node_id, final(plan)@[k].indices@)
                    &&& under(np.node_paths@, final(plan)@[k].node_id, final(plan)@[k].indices@, path, indices@)
                }
                &&& forall|n: u32, idx: Seq<usize>| #[trigger] is_instance(*self, np.node_paths@, n, idx)
                    && under(np.node_paths@, n, idx, path, indices@) ==> has_key(final(plan)@, final(plan)@.len() as int, n, idx)
            },
        decreases self.plates@.dom().len() - path.len(),
    {
        let ghost paths = np.node_paths@;
        let ghost plan0 = plan@;
        let ghost l0 = plan@.len() as int;
        // The scope's own nodes, in dependency order.
        let mut oi: usize = 0;
        while oi < order.len()
            invariant
                plates_well_formed(*self),
                normalized_ok(*self, *np),
                all_scoped(*self, paths),
                paths == np.node_paths@,
                order_ok(*self, order@),
                scope_at(*self, *scope, path),
                indices_valid(*self, path, indices@),
                oi <= order@.len(),
                plan0 == old(plan)@,
                l0 == plan0.len(),
                plan@.len() >= l0,
                plan@.take(l0) == plan0,
                plan_ok(*self, paths, plan@),
                ancestors_done(*self, paths, plan@, path, indices@),
                keys_distinct(plan@, l0, plan@.len() as int),
                forall|k: int| l0 <= k < plan@.len() ==> {
                    &&& (#[trigger] plan@[k]).indices@ == indices@
                    &&& self.nodes@.contains_key(plan@[k].node_id)
                    &&& paths[plan@[k].node_id]@ == path
                    &&& exists|o: int| 0 <= o < oi && order@[o] == plan@[k].node_id
                },
                forall|o: int| 0 <= o < oi && scope.nodes@.contains(#[trigger] order@[o]) ==> has_key(plan@, plan@.len() as int, order@[o], indices@),
            decreases order@.len() - oi,
        {
            let n = order[oi];
            if crate::util::contains_id(&scope.nodes, n) {
                proof {
                    assert(order@.to_set().contains(n));
                    lemma_scope_nodes(*self, *np, *scope, path, n);
                    assert(consumer_scoped(*self, paths, n));
                    if path.len() > 0 {
                        assert(self.plates@.contains_key(path[path.len() - 1]));
                    }
                }
                let step = match self.instance_step(np, n, scope.plate, indices, Ghost(path)) {
                    Ok(step) => step,
                    Err(msg) => {
                        proof {
                            assert(is_instance(*self, paths, n, indices@));
                            assert(missing_row(*self, paths, n, indices@));
                            assert(under(paths, n, indices@, path, indices@));
                            if data_complete(*self) {
                                lemma_complete_row(*self, *np, n, indices@);
                            }
                        }
                        return Err(msg);
                    },
                };
                let ghost before = plan@;
                proof {
                    let b = before.push(step);
                    assert forall|i: int| 0 <= i < b[before.len() as int].params@.len() implies has_key(b, before.len() as int,
                        (#[trigger] b[before.len() as int].params@[i]).from_node,
                        b[before.len() as int].indices@.take(b[before.len() as int].params@[i].producer_depth as int)) by {
                        let cp = step.params@[i];
                        let from = producers(self.nodes@[n])[i];
                        assert(crate::model_plan::compiled_param_ok(paths, from, cp));
                        assert(paths.contains_key(from) && paths[from]@.is_prefix_of(paths[n]@));
                        assert(b.take(before.len() as int) =~= before);
                        if paths[from]@.len() == path.len() {
                            assert(paths[from]@ =~= path);
                            assert(self.nodes@.contains_key(from));
                            lemma_scope_nodes(*self, *np, *scope, path, from);
                            assert(producers(self.nodes@[order@[oi as int]]).contains(from));
                            let o = choose|o: int| 0 <= o < oi && order@[o] == from;
                            assert(scope.nodes@.contains(order@[o]));
                            assert(indices@.take(cp.producer_depth as int) =~= indices@);
                            lemma_has_key_grow(before, b, before.len() as int, before.len() as int, from, indices@);
                        } else {
                            assert(self.nodes@.contains_key(from));
                            lemma_has_key_grow(before, b, before.len() as int, before.len() as int, from, indices@.take(paths[from]@.len() as int));
                        }
                    }
                    lemma_plan_ok_push(*self, paths, before, step);
                }
                plan.push(step);
                proof {
                    let b = plan@;
                    assert(b.take(before.len() as int) =~= before);
                    assert(b.take(l0) =~= plan0);
                    assert forall|m: u32| #[trigger] self.nodes@.contains_key(m) && paths[m]@.len() < path.len() && paths[m]@.is_prefix_of(path)
                        implies has_key(b, b.len() as int, m, indices@.take(paths[m]@.len() as int)) by {
                        lemma_has_key_grow(before, b, before.len() as int, b.len() as int, m, indices@.take(paths[m]@.len() as int));
                    }
                    assert forall|o: int| 0 <= o < oi + 1 && scope.nodes@.contains(#[trigger] order@[o]) implies has_key(b, b.len() as int, order@[o], indices@) by {
                        if o < oi {
                            lemma_has_key_grow(before, b, before.len() as int, b.len() as int, order@[o], indices@);
                        } else {
                            assert(b[before.len() as int].node_id == order@[o]);
                        }
                    }
                    assert forall|k: int| l0 <= k < b.len() implies {
                        &&& (#[trigger] b[k]).indices@ == indices@
                        &&& self.nodes@.contains_key(b[k].node_id)
                        &&& paths[b[k].node_id]@ == path
                        &&& exists|o: int| 0 <= o < oi + 1 && order@[o] == b[k].node_id
                    } by {
                        if k < before.len() {
                            assert(b[k] == before[k]);
                            let o = choose|o: int| 0 <= o < oi && order@[o] == before[k].node_id;
                        } else {
                            assert(order@[oi as int] == b[k].node_id);
                        }
                    }
                    assert forall|x: int, y: int| l0 <= x < y < b.len() implies !((#[trigger] b[x]).node_id == (#[trigger] b[y]).node_id
                        && b[x].indices@ == b[y].indices@) by {
                        if y == before.len() {
                            let o = choose|o: int| 0 <= o < oi && order@[o] == before[x].node_id;
                            assert(b[x] == before[x]);
                            assert(order@[o] != order@[oi as int]);
                        } else {
                            assert(b[x] == before[x]);
                            assert(b[y] == before[y]);
                        }
                    }
                }
            }
            oi = oi + 1;
        }
        proof {
            assert forall|m: u32, idx: Seq<usize>| #[trigger] is_instance(*self, paths, m, idx)
                && under(paths, m, idx, path, indices@) && paths[m]@.len() == path.len() implies has_key(plan@, plan@.len() as int, m, idx) by {
                assert(paths[m]@ =~= path);
                assert(idx =~= indices@);
                lemma_scope_nodes(*self, *np, *scope, path, m);
                assert(order@.to_set().contains(m));
                let o = choose|o: int| 0 <= o < order@.len() && order@[o] == m;
                assert(scope.nodes@.contains(order@[o]));
            }
            assert forall|k: int| l0 <= k < plan@.len() implies {
                &&& is_instance(*self, paths, (#[trigger] plan@[k]).node_id, plan@[k].indices@)
                &&& under(paths, plan@[k].node_id, plan@[k].indices@, path, indices@)
                &&& paths[plan@[k].node_id]@.len() == path.len()
            } by {
                assert(paths[plan@[k].node_id]@ =~= path);
            }
        }
        // Each row of each child plate.
        let ghost ids = child_plate_ids(scope.children@);
        let ghost lp = path.len() as int;
        proof {
            if path.len() == 0 {
                assert(crate::util::strictly_increasing(ids));
            } else {
                assert(crate::util::strictly_increasing(ids));
            }
        }
        let mut ci: usize = 0;
        while ci < scope.children.len()
            invariant
                plates_well_formed(*self),
                normalized_ok(*self, *np),
                all_scoped(*self, paths),
                paths == np.node_paths@,
                order_ok(*self, order@),
                scope_at(*self, *scope, path),
                indices_valid(*self, path, indices@),
                ids == child_plate_ids(scope.children@),
                crate::util::strictly_increasing(ids),
                lp == path.len(),
                ci <= scope.children@.len(),
                plan0 == old(plan)@,
                l0 == plan0.len(),
                plan@.len() >= l0,
                plan@.take(l0) == plan0,
                plan_ok(*self, paths, plan@),
                ancestors_done(*self, paths, plan@, path, indices@),
                keys_distinct(plan@, l0, plan@.len() as int),
                forall|k: int| l0 <= k < plan@.len() ==> {
                    &&& is_instance(*self, paths, (#[trigger] plan@[k]).node_id, plan@[k].indices@)
                    &&& under(paths, plan@[k].node_id, plan@[k].indices@, path, indices@)
                    &&& (paths[plan@[k].node_id]@.len() == lp
                        || (paths[plan@[k].node_id]@.len() > lp && ids.take(ci as int).contains(paths[plan@[k].node_id]@[lp])))
                },
                forall|m: u32, idx: Seq<usize>| #[trigger] is_instance(*self, paths, m, idx) && under(paths, m, idx, path, indices@)
                    && (paths[m]@.len() == lp || (paths[m]@.len() > lp && ids.take(ci as int).contains(paths[m]@[lp])))
                    ==> has_key(plan@, plan@.len() as int, m, idx),
            decreases scope.children@.len() - ci,
        {
            let child = &scope.children[ci];
            let ghost c = ids[ci as int];
            let ghost cpath = path.push(c);
            proof {
                lemma_child_scope(*self, *scope, path, ci as int);
                assert(scope_plate_id(scope.children@[ci as int]) == c);
                let graph = child_graph(self.plates@);
                if path.len() == 0 {
                    assert(cpath =~= seq![c]);
                }
                lemma_chain_no_duplicates(*self, cpath);
                cpath.unique_seq_to_set();
                assert(cpath.to_set().subset_of(self.plates@.dom()));
                vstd::set_lib::lemma_len_subset(cpath.to_set(), self.plates@.dom());
            }
            let extent = match child.plate {
                Some(p) => p.n,
                None => 0,
            };
            let mut j: usize = 0;
            while j < extent
                invariant
                    plates_well_formed(*self),
                    normalized_ok(*self, *np),
                    all_scoped(*self, paths),
                    paths == np.node_paths@,
                    order_ok(*self, order@),
                    scope_at(*self, *scope, path),
                    indices_valid(*self, path, indices@),
                    ids == child_plate_ids(scope.children@),
                    crate::util::strictly_increasing(ids),
                    lp == path.len(),
                    ci < scope.children@.len(),
                    *child == scope.children@[ci as int],
                    c == ids[ci as int],
                    cpath == path.push(c),
                    scope_at(*self, *child, cpath),
                    self.plates@.contains_key(c),
                    extent == self.plates@[c].n,
                    cpath.len() <= self.plates@.dom().len(),
                    j <= extent,
                    plan0 == old(plan)@,
                    l0 == plan0.len(),
                    plan@.len() >= l0,
                    plan@.take(l0) == plan0,
                    plan_ok(*self, paths, plan@),
                    ancestors_done(*self, paths, plan@, path, indices@),
                    keys_distinct(plan@, l0, plan@.len() as int),
                    forall|k: int| l0 <= k < plan@.len() ==> {
                        &&& is_instance(*self, paths, (#[trigger] plan@[k]).node_id, plan@[k].indices@)
                        &&& under(paths, plan@[k].node_id, plan@[k].indices@, path, indices@)
                        &&& (paths[plan@[k].node_id]@.len() == lp
                            || (paths[plan@[k].node_id]@.len() > lp && ids.take(ci as int).contains(paths[plan@[k].node_id]@[lp]))
                            || (paths[plan@[k].node_id]@.len() > lp && paths[plan@[k].node_id]@[lp] == c && plan@[k].indices@[lp] < j))
                    },
                    forall|m: u32, idx: Seq<usize>| #[trigger] is_instance(*self, paths, m, idx) && under(paths, m, idx, path, indices@)
                        && (paths[m]@.len() == lp || (paths[m]@.len() > lp && ids.take(ci as int).contains(paths[m]@[lp]))
                            || (paths[m]@.len() > lp && paths[m]@[lp] == c && idx[lp] < j))
                        ==> has_key(plan@, plan@.len() as int, m, idx),
                decreases extent - j,
            {
                let mut child_indices = crate::util::copy_usizes(indices);
                child_indices.push(j);
                let ghost before = plan@;
                proof {
                    let ci_idx = child_indices@;
                    assert(ci_idx =~= indices@.push(j));
                    assert(indices_valid(*self, cpath, ci_idx)) by {
                        assert forall|q: int| 0 <= q < ci_idx.len() implies ci_idx[q] < #[trigger] self.plates@[cpath[q]].n by {
                            if q < lp {
                                assert(ci_idx[q] == indices@[q]);
                                assert(cpath[q] == path[q]);
                                assert(indices@[q] < self.plates@[path[q]].n);
                            }
                        }
                    }
                    assert forall|m: u32| #[trigger] self.nodes@.contains_key(m) && paths[m]@.len() < cpath.len() && paths[m]@.is_prefix_of(cpath)
                        implies has_key(before, before.len() as int, m, ci_idx.take(paths[m]@.len() as int)) by {
                        if paths[m]@.len() < lp {
                            assert(paths[m]@.is_prefix_of(path));
                            assert(ci_idx.take(paths[m]@.len() as int) =~= indices@.take(paths[m]@.len() as int));
                        } else {
                            assert(paths[m]@ =~= path);
                            assert(ci_idx.take(lp) =~= indices@);
                            assert(paths.contains_key(m));
                            assert(is_instance(*self, paths, m, indices@));
                            assert(under(paths, m, indices@, path, indices@));
                        }
                    }
                }
                let r = self.compile_scope(np, child, order, &child_indices, plan, Ghost(cpath));
                match r {
                    Ok(()) => {},
                    Err(msg) => {
                        proof {
                            let (m, idx) = choose|m: u32, idx: Seq<usize>| #[trigger] missing_row(*self, paths, m, idx)
                                && under(paths, m, idx, cpath, child_indices@)
                                && msg@ == missing_row_message(paths[m]@.last(), mapped_column(*self, m, paths[m]@), idx.last() as nat);
                            assert(path.is_prefix_of(paths[m]@));
                            assert(indices@.is_prefix_of(idx));
                            assert(under(paths, m, idx, path, indices@));
                            assert(plan@.take(l0) =~= plan0) by {
                                assert(plan@.take(before.len() as int) == before);
                                assert(before.take(l0) == plan0);
                            }
                        }
                        return Err(msg);
                    },
                }
                proof {
                    let b = plan@;
                    let lb = before.len() as int;
                    assert(b.take(l0) =~= plan0) by {
                        assert(b.take(lb) == before);
                        assert(before.take(l0) == plan0);
                    }
                    assert forall|m: u32| #[trigger] self.nodes@.contains_key(m) && paths[m]@.len() < path.len() && paths[m]@.is_prefix_of(path)
                        implies has_key(b, b.len() as int, m, indices@.take(paths[m]@.len() as int)) by {
                        lemma_has_key_grow(before, b, lb, b.len() as int, m, indices@.take(paths[m]@.len() as int));
                    }
                    assert forall|k: int| l0 <= k < b.len() implies {
                        &&& is_instance(*self, paths, (#[trigger] b[k]).node_id, b[k].indices@)
                        &&& under(paths, b[k].node_id, b[k].indices@, path, indices@)
                        &&& (paths[b[k].node_id]@.len() == lp
                            || (paths[b[k].node_id]@.len() > lp && ids.take(ci as int).contains(paths[b[k].node_id]@[lp]))
                            || (paths[b[k].node_id]@.len() > lp && paths[b[k].node_id]@[lp] == c && b[k].indices@[lp] < j + 1))
                    } by {
                        if k < lb {
                            assert(b.take(lb)[k] == b[k]);
                        } else {
                            assert(under(paths, b[k].node_id, b[k].indices@, cpath, child_indices@));
                            assert(cpath[lp] == c);
                            assert(child_indices@[lp] == j);
                        }
                    }
                    assert forall|x: int, y: int| l0 <= x < y < b.len() implies !((#[trigger] b[x]).node_id == (#[trigger] b[y]).node_id
                        && b[x].indices@ == b[y].indices@) by {
                        if y >= lb && x < lb {
                            assert(b.take(lb)[x] == b[x]);
                            assert(under(paths, b[y].node_id, b[y].indices@, cpath, child_indices@));
                            if b[x].node_id == b[y].node_id && b[x].indices@ == b[y].indices@ {
                                assert(paths[b[y].node_id]@[lp] == c);
                                assert(b[y].indices@[lp] == j);
                                if paths[b[x].node_id]@.len() > lp && ids.take(ci as int).contains(paths[b[x].node_id]@[lp]) {
                                    let q = choose|q: int| 0 <= q < ci && ids.take(ci as int)[q] == c;
                                    assert(ids[q] < ids[ci as int]);
                                }
                            }
                        } else if x < lb && y < lb {
                            assert(b.take(lb)[x] == b[x]);
                            assert(b.take(lb)[y] == b[y]);
                        }
                    }
                    assert forall|m: u32, idx: Seq<usize>| #[trigger] is_instance(*self, paths, m, idx) && under(paths, m, idx, path, indices@)
                        && (paths[m]@.len() == lp || (paths[m]@.len() > lp && ids.take(ci as int).contains(paths[m]@[lp]))
                            || (paths[m]@.len() > lp && paths[m]@[lp] == c && idx[lp] < j + 1))
                        implies has_key(b, b.len() as int, m, idx) by {
                        if paths[m]@.len() > lp && paths[m]@[lp] == c && idx[lp] == j {
                            assert(cpath.is_prefix_of(paths[m]@));
                            assert(child_indices@.is_prefix_of(idx));
                        } else {
                            lemma_has_key_grow(before, b, lb, b.len() as int, m, idx);
                        }
                    }
                }
                j = j + 1;
            }
            proof {
                assert(ids.take(ci + 1) =~= ids.take(ci as int).push(c));
                assert forall|m: u32, idx: Seq<usize>| #[trigger] is_instance(*self, paths, m, idx) && under(paths, m, idx, path, indices@)
                    && paths[m]@.len() > lp && paths[m]@[lp] == c implies idx[lp] < extent by {
                    assert(idx[lp] < self.plates@[paths[m]@[lp]].n);
                }
            }
            ci = ci + 1;
        }
        proof {
            assert(ids.take(ids.len() as int) =~= ids);
            assert forall|m: u32, idx: Seq<usize>| #[trigger] is_instance(*self, paths, m, idx) && under(paths, m, idx, path, indices@)
                implies has_key(plan@, plan@.len() as int, m, idx) by {
                if paths[m]@.len() != lp {
                    lemma_deeper_in_child(*self, *np, *scope, path, m);
                }
            }
        }
        Ok(())
    }

    /// The shape of every node, in increasing node id order.
    fn node_shapes(&self, np: &NormalizedPlates) -> (shapes: Vec<NodeShape>)
        requires
            plates_well_formed(*self),
            normalized_ok(*self, *np),
        ensures
            forall|k: int| 0 <= k < shapes@.len() ==> shape_ok(*self, np.node_paths@, #[trigger] shapes@[k]),
            forall|a: int, b: int| 0 <= a < b < shapes@.len() ==> (#[trigger] shapes@[a]).node_id < (#[trigger] shapes@[b]).node_id,
            forall|n: u32| #[trigger] self.nodes@.contains_key(n) ==> exists|k: int| 0 <= k < shapes@.len() && (#[trigger] shapes@[k]).node_id == n,
    {
        let ids = crate::util::sorted_keys(&self.nodes);
        let mut shapes: Vec<NodeShape> = Vec::new();
        let mut i: usize = 0;
        while i < ids.len()
            invariant
                plates_well_formed(*self),
                normalized_ok(*self, *np),
                i <= ids@.len(),
                ids@.to_set() == self.nodes@.dom(),
                crate::util::strictly_increasing(ids@),
                shapes@.len() == i,
                forall|k: int| 0 <= k < i ==> shape_ok(*self, np.node_paths@, #[trigger] shapes@[k]),
                forall|k: int| 0 <= k < i ==> (#[trigger] shapes@[k]).node_id == ids@[k],
            decreases ids@.len() - i,
        {
            let n = ids[i];
            proof { assert(ids@.to_set().contains(n)); }
            let path = np.node_paths.get(&n).unwrap();
            proof { assert(node_path_ok(*self, n, path@)); }
            let mut extents: Vec<usize> = Vec::new();
            let mut j: usize = 0;
            while j < path.len()
                invariant
                    j <= path@.len(),
                    is_plate_chain(*self, path@),
                    extents@.len() == j,
                    forall|q: int| 0 <= q < j ==> extents@[q] == #[trigger] self.plates@[path@[q]].n,
                decreases path@.len() - j,
            {
                let plate = self.plates.get(&path[j]).unwrap();
                extents.push(plate.n);
                j = j + 1;
            }
            shapes.push(NodeShape { node_id: n, plate_ids: crate::util::copy_ids(path), extents });
            i = i + 1;
        }
        proof {
            assert forall|n: u32| #[trigger] self.nodes@.contains_key(n) implies exists|k: int| 0 <= k < shapes@.len() && (#[trigger] shapes@[k]).node_id == n by {
                assert(ids@.to_set().contains(n));
                let k = choose|k: int| 0 <= k < ids@.len() && ids@[k] == n;
                assert(shapes@[k].node_id == n);
            }
        }
        shapes
    }

    /// Compiles the structure of the graph's model: checks that the dependencies
    /// have no cycle and refer to existing nodes, validates the plates, and lists
    /// every node instance in evaluation order with the dataset value bound to it.
    /// Nodes are taken in topological order within each plate scope, so a
    /// downstream instance comes after every instance whose value it reads.
    pub fn create_model_plan(&self) -> (result: Result<ModelPlan, String>)
        ensures
            result is Ok <==> structure_ok(*self) && !exists|n: u32, idx: Seq<usize>| #[trigger] missing_row(
                *self, crate::normalize::plate_paths(*self), n, idx),
            result matches Ok(plan) ==> plan_complete(*self, plan),
            result matches Err(msg) ==> plan_error(*self, msg@),
    {
        match self.check_cycles() {
            Ok(()) => {},
            Err(cycle) => {
                let mut msg = String::new();
                push_str(&mut msg, "graph contains a cycle including node IDs: ");
                push_id_list(&mut msg, &cycle);
                proof {
                    reveal_strlit("graph contains a cycle including node IDs: ");
                    crate::cycles::lemma_cycle_not_acyclic(dependencies(self.nodes@), cycle@);
                    assert(is_cycle(dependencies(self.nodes@), cycle@) && msg@ == "graph contains a cycle including node IDs: "@ + id_list(cycle@));
                }
                return Err(msg);
            },
        }
        let order = match self.topological_sort() {
            Ok(order) => order,
            Err(e) => {
                let msg = e.message();
                proof {
                    assert(producers(self.nodes@[e.node]).contains(e.missing));
                }
                return Err(msg);
            },
        };
        proof {
            lemma_order_complete_iff_acyclic(self.nodes@, order@);
            order@.unique_seq_to_set();
        }
        if order.len() != self.nodes.len() {
            return Err(String::new());
        }
        let normalized = match self.validated_plates() {
            Ok(np) => np,
            Err(e) => {
                let msg = e.message();
                return Err(msg);
            },
        };
        proof {
            assert forall|i: int, p: u32| 0 <= i < order@.len() && #[trigger] producers(self.nodes@[order@[i]]).contains(p)
                implies exists|j: int| 0 <= j < i && order@[j] == p by {
                lemma_order_respects_dependencies(self.nodes@, order@, i, p);
            }
            crate::normalize::lemma_plate_paths(*self, normalized);
        }
        let mut steps: Vec<InstanceStep> = Vec::new();
        let root_indices: Vec<usize> = Vec::new();
        match self.compile_scope(&normalized, &normalized.root, &order, &root_indices, &mut steps, Ghost(Seq::empty())) {
            Ok(()) => {},
            Err(msg) => {
                proof {
                    let (n, idx) = choose|n: u32, idx: Seq<usize>| #[trigger] missing_row(*self, normalized.node_paths@, n, idx)
                        && under(normalized.node_paths@, n, idx, Seq::empty(), Seq::empty())
                        && msg@ == missing_row_message(normalized.node_paths@[n]@.last(), mapped_column(*self, n, normalized.node_paths@[n]@), idx.last() as nat);
                    lemma_missing_row_paths(*self, normalized, n, idx);
                    crate::normalize::lemma_plate_paths(*self, normalized);
                    assert(crate::normalize::plate_paths(*self)[n]@ == normalized.node_paths@[n]@);
                }
                return Err(msg);
            },
        }
        let shapes = self.node_shapes(&normalized);
        let reads = step_reads(&steps, Ghost(*self), Ghost(normalized.node_paths@));
        proof {
            assert(steps@.take(0) =~= Seq::<InstanceStep>::empty());
            assert forall|n: u32, idx: Seq<usize>| #[trigger] missing_row(*self, crate::normalize::plate_paths(*self), n, idx) implies false by {
                lemma_missing_row_paths(*self, normalized, n, idx);
                assert(under(normalized.node_paths@, n, idx, Seq::empty(), Seq::empty()));
                assert(has_key(steps@, steps@.len() as int, n, idx));
                let k = choose|k: int| 0 <= k < steps@.len() && (#[trigger] steps@[k]).node_id == n && steps@[k].indices@ == idx;
                assert(step_ok(*self, normalized.node_paths@, steps@[k]));
            }
            assert forall|n: u32, idx: Seq<usize>| #[trigger] is_instance(*self, normalized.node_paths@, n, idx)
                implies has_key(steps@, steps@.len() as int, n, idx) by {
                assert(under(normalized.node_paths@, n, idx, Seq::empty(), Seq::empty()));
            }
        }
        let plan = ModelPlan { normalized, steps, shapes, reads };
        proof {
            let paths = plan.normalized.node_paths@;
            assert(normalized_ok(*self, plan.normalized));
            assert(plan_ok(*self, paths, plan.steps@));
            assert(keys_distinct(plan.steps@, 0, plan.steps@.len() as int));
            assert(forall|k: int| 0 <= k < plan.steps@.len() ==> is_instance(*self, paths, (#[trigger] plan.steps@[k]).node_id, plan.steps@[k].indices@));
            assert(forall|n: u32, idx: Seq<usize>| #[trigger] is_instance(*self, paths, n, idx) ==> has_key(plan.steps@, plan.steps@.len() as int, n, idx));
            assert(forall|k: int| 0 <= k < plan.shapes@.len() ==> shape_ok(*self, paths, #[trigger] plan.shapes@[k]));
        }
        Ok(plan)
    }
}

/// The value a step takes without a draw or a computation: the dataset value
/// its plate binds to it (a scalar then stands for the row's value, a random
/// node is observed at it), or else a scalar's own value; `None` for a random
/// node without data and for a compute node.
pub open spec fn fixed_value(step: InstanceStep) -> Option<u64> {
    match step.data_value {
        Some(v) => Some(v),
        None => match step.node {
            NodeIR::Scalar { value, .. } => Some(value),
            _ => None,
        },
    }
}

/// The value step `step` takes without a draw or a computation, if any.
pub fn fixed_step_value(step: &InstanceStep) -> (v: Option<u64>)
    ensures
        v == fixed_value(*step),
{
    match step.data_value {
        Some(v) => Some(v),
        None => match &step.node {
            NodeIR::Scalar { value, .. } => Some(*value),
            _ => None,
        },
    }
}

} // verus!
