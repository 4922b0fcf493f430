//! Turning an edited graph into a model plan, and the messages shown when that fails.
use crate::cycles::{acyclic, is_cycle};
use crate::graph_ir::{dependencies, DataColumn, GraphIR, NodeIR, Operation, ParamIR, PlateIR};
use crate::plate_geometry::{
    child_ids, compile_plate_irs, contained_in, direct_member, inside, last_entry, layout_error, layout_ok, member_ids, plate_ir_at,
    plate_ir_of, PlateBounds, Point,
};
use crate::text::push_decimal;
use crate::util::nondecreasing;
use std::collections::HashMap;
use crate::instance_plan::{missing_row, plan_complete, plan_error, structure_ok, ModelPlan};
use crate::plate_errors::PlateError;
use crate::plate_validation::{first_structure_error, plate_violation, plates_well_formed};
use crate::scopes::{dependencies_scoped, dependency_violation, first_bad_dependency, node_deps_scoped, scope_error_consumer};
use crate::text::{id_list, push_id_list, push_str};
use vstd::prelude::*;

verus! {

broadcast use vstd::std_specs::hash::group_hash_axioms;

/// The message that names a dependency cycle.
pub open spec fn cycle_message(c: Seq<u32>) -> Seq<char> {
    "Graph contains a cycle including node IDs: "@ + id_list(c)
}

/// Compiles a graph in three stages: plate containment and dependency scopes,
/// then dependency cycles, then the model plan. The first stage that fails gives
/// the error: the message of the first plate error (the plate with the smallest
/// id that breaks a rule, the rules in the order they are checked) or of the
/// first dependency that leaves its scope (the consumer with the smallest id,
/// its first failing parameter), the cycle, or the planning error after
/// `Compilation error: `.
pub fn compile(graph: &GraphIR) -> (result: Result<ModelPlan, String>)
    ensures
        result is Ok <==> structure_ok(*graph) && !exists|n: u32, idx: Seq<usize>| #[trigger] missing_row(
            *graph, crate::normalize::plate_paths(*graph), n, idx),
        result matches Ok(plan) ==> plan_complete(*graph, plan),
        result matches Err(msg) ==> {
            if !plates_well_formed(*graph) {
                exists|e: PlateError| #[trigger] plate_violation(*graph, e) && first_structure_error(*graph, e)
                    && msg@ == e.message_spec()
            } else if !dependencies_scoped(*graph) {
                exists|e: PlateError| #[trigger] dependency_violation(*graph, e) && first_bad_dependency(*graph, e)
                    && (forall|c: u32| #[trigger] graph.nodes@.contains_key(c) && c < scope_error_consumer(e)
                        ==> node_deps_scoped(*graph, c))
                    && msg@ == e.message_spec()
            } else if !acyclic(dependencies(graph.nodes@)) {
                exists|c: Seq<u32>| is_cycle(dependencies(graph.nodes@), c) && c.no_duplicates() && msg@ == #[trigger] cycle_message(c)
            } else {
                exists|inner: Seq<char>| msg@ == "Compilation error: "@ + inner && #[trigger] plan_error(*graph, inner)
            }
        },
{
    match graph.validate_plate_semantics() {
        Ok(()) => {},
        Err(e) => {
            return Err(e.message());
        },
    }
    match graph.check_cycles() {
        Ok(()) => {},
        Err(cycle) => {
            let mut msg = String::new();
            push_str(&mut msg, "Graph contains a cycle including node IDs: ");
            push_id_list(&mut msg, &cycle);
            proof {
                reveal_strlit("Graph contains a cycle including node IDs: ");
                assert(msg@ == cycle_message(cycle@));
            }
            return Err(msg);
        },
    }
    match graph.create_model_plan() {
        Ok(plan) => Ok(plan),
        Err(inner) => {
            let mut msg = String::new();
            push_str(&mut msg, "Compilation error: ");
            push_str(&mut msg, inner.as_str());
            proof {
                reveal_strlit("Compilation error: ");
                assert(plan_error(*graph, inner@));
            }
            Err(msg)
        },
    }
}


/// What a parameter slot of a node in the editor refers to.
#[derive(Clone, Copy, Debug, PartialEq, Eq, Structural)]
pub enum ParamSource {
    /// No node is linked to the slot yet.
    Unset,
    /// The slot is linked to something that is no longer a node of the graph.
    Missing,
    /// The slot is fed by the node with this id.
    Node(u32),
}

/// One named parameter slot of a node in the editor.
#[derive(Debug)]
pub struct ParamSlot {
    pub name: String,
    pub source: ParamSource,
}

/// A node as the editor holds it; `id` is `None` where the node has lost its
/// graph id.
#[derive(Debug)]
pub enum NodeDraft {
    Random { id: Option<u32>, label: Option<String>, dist_type: String, params: Vec<ParamSlot> },
    Compute { id: Option<u32>, operation: Operation, params: Vec<ParamSlot> },
    Scalar { id: Option<u32>, value: u64 },
}

/// A plate as the editor holds it: its rectangle, repetition count, dataset, and
/// the dataset column each member node observes (`None` where the mapped node is
/// gone).
#[derive(Debug)]
pub struct EditorPlate {
    pub id: u32,
    pub bounds: PlateBounds,
    pub n: usize,
    pub data: Vec<DataColumn>,
    pub mapping: Vec<(Option<u32>, String)>,
}

/// The first failing slot among the first `end`: an unlinked one, or one linked
/// to a missing node.
pub open spec fn slots_error(slots: Seq<ParamSlot>, end: int) -> Option<Seq<char>>
    decreases end,
{
    if end <= 0 {
        None
    } else {
        match slots_error(slots, end - 1) {
            Some(m) => Some(m),
            None => match slots[end - 1].source {
                ParamSource::Unset => Some("A node has unspecified parameters!"@),
                ParamSource::Missing => Some("Parameter references a missing node!"@),
                ParamSource::Node(_) => None,
            },
        }
    }
}

/// The graph id of a node draft.
pub open spec fn draft_id(d: NodeDraft) -> Option<u32> {
    match d {
        NodeDraft::Random { id, .. } => id,
        NodeDraft::Compute { id, .. } => id,
        NodeDraft::Scalar { id, .. } => id,
    }
}

/// Why a node draft cannot become a node, if it cannot.
pub open spec fn draft_error(d: NodeDraft) -> Option<Seq<char>> {
    if draft_id(d) is None {
        Some("Node is missing its GraphNode ID"@)
    } else {
        match d {
            NodeDraft::Random { params, .. } => slots_error(params@, params@.len() as int),
            NodeDraft::Compute { params, .. } => slots_error(params@, params@.len() as int),
            NodeDraft::Scalar { .. } => None,
        }
    }
}

/// The first error among the first `end` drafts.
pub open spec fn drafts_error(ds: Seq<NodeDraft>, end: int) -> Option<Seq<char>>
    decreases end,
{
    if end <= 0 {
        None
    } else {
        match drafts_error(ds, end - 1) {
            Some(m) => Some(m),
            None => draft_error(ds[end - 1]),
        }
    }
}

/// Each parameter takes its producer and name from the slot at its position.
pub open spec fn params_match(ps: Seq<ParamIR>, slots: Seq<ParamSlot>) -> bool {
    &&& ps.len() == slots.len()
    &&& forall|i: int| 0 <= i < ps.len() ==> slots[i].source == ParamSource::Node((#[trigger] ps[i]).from_node)
        && ps[i].param_name == Some(slots[i].name)
}

/// `n` is the node made from the draft `d`.
pub open spec fn node_from(n: NodeIR, d: NodeDraft) -> bool {
    match d {
        NodeDraft::Random { id, label, dist_type, params } => n matches NodeIR::Random { id: i, label: l, dist_type: t, params: p }
            && id == Some(i) && l == label && t == dist_type && params_match(p@, params@),
        NodeDraft::Compute { id, operation, params } => n matches NodeIR::Compute { id: i, operation: o, params: p }
            && id == Some(i) && o == operation && params_match(p@, params@),
        NodeDraft::Scalar { id, value } => n matches NodeIR::Scalar { id: i, value: v } && id == Some(i) && v == value,
    }
}

/// The position of the last of the first `end` drafts with graph id `id`.
pub open spec fn last_draft(ds: Seq<NodeDraft>, id: u32, end: int) -> Option<int>
    decreases end,
{
    if end <= 0 {
        None
    } else if draft_id(ds[end - 1]) == Some(id) {
        Some(end - 1)
    } else {
        last_draft(ds, id, end - 1)
    }
}

/// The rectangles of the plates, for laying out their contents.
pub open spec fn plate_entries(ps: Seq<EditorPlate>) -> Seq<(u32, PlateBounds, usize)> {
    ps.map_values(|p: EditorPlate| (p.id, p.bounds, p.n))
}

/// The first plate without a dataset, or with a mapping to a missing node.
pub open spec fn plates_error(ps: Seq<EditorPlate>, end: int) -> Option<Seq<char>>
    decreases end,
{
    if end <= 0 {
        None
    } else {
        match plates_error(ps, end - 1) {
            Some(m) => Some(m),
            None => {
                let p = ps[end - 1];
                if p.data@.len() == 0 {
                    Some("plate "@ + crate::text::decimal(p.id as nat) + " has no dataset"@)
                } else if exists|j: int| 0 <= j < p.mapping@.len() && #[trigger] p.mapping@[j].0 is None
                    && p.mapping@[j].1@ != "unobserved"@ {
                    Some("plate "@ + crate::text::decimal(p.id as nat) + " maps a missing node"@)
                } else {
                    None
                }
            },
        }
    }
}

/// The column node `nid` observes after the first `end` mapping entries: the
/// last entry for it, entries to `unobserved` left out.
pub open spec fn mapped_to(mapping: Seq<(Option<u32>, String)>, nid: u32, end: int) -> Option<String>
    decreases end,
{
    if end <= 0 {
        None
    } else if mapping[end - 1].0 == Some(nid) && mapping[end - 1].1@ != "unobserved"@ {
        Some(mapping[end - 1].1)
    } else {
        mapped_to(mapping, nid, end - 1)
    }
}

/// `ir` lays out plate `i` as `plate_ir_of` does, and carries the plate's
/// dataset and its mapping.
pub open spec fn plate_compiled(ps: Seq<EditorPlate>, nodes: Seq<(u32, Point)>, i: int, ir: PlateIR) -> bool {
    let es = plate_entries(ps);
    &&& ir.id == ps[i].id
    &&& ir.n == ps[i].n
    &&& nondecreasing(ir.plates@)
    &&& ir.plates@.to_multiset() == child_ids(es, i, es.len() as int).to_multiset()
    &&& nondecreasing(ir.nodes@)
    &&& ir.nodes@.to_multiset() == member_ids(es, nodes, i, nodes.len() as int).to_multiset()
    &&& columns_eq(ir.data@, ps[i].data@)
    &&& forall|nid: u32| #[trigger] ir.mapping@.contains_key(nid)
        == mapped_to(ps[i].mapping@, nid, ps[i].mapping@.len() as int) is Some
    &&& forall|nid: u32| #[trigger] ir.mapping@.contains_key(nid)
        ==> Some(ir.mapping@[nid]) == mapped_to(ps[i].mapping@, nid, ps[i].mapping@.len() as int)
}

/// The node made from one draft, or why it cannot be made.
fn node_of_draft(d: &NodeDraft) -> (r: Result<NodeIR, String>)
    ensures
        r is Err <==> draft_error(*d) is Some,
        r matches Err(m) ==> draft_error(*d) == Some(m@),
        r matches Ok(n) ==> node_from(n, *d),
{
    proof {
        reveal_strlit("Node is missing its GraphNode ID");
    }
    match d {
        NodeDraft::Random { id, label, dist_type, params } => {
            let i = match id {
                Some(i) => *i,
                None => { return Err(String::from_str("Node is missing its GraphNode ID")); },
            };
            let ps = params_of_slots(params)?;
            let l = match label {
                Some(l) => Some(l.clone()),
                None => None,
            };
            Ok(NodeIR::Random { id: i, label: l, dist_type: dist_type.clone(), params: ps })
        },
        NodeDraft::Compute { id, operation, params } => {
            let i = match id {
                Some(i) => *i,
                None => { return Err(String::from_str("Node is missing its GraphNode ID")); },
            };
            let ps = params_of_slots(params)?;
            Ok(NodeIR::Compute { id: i, operation: *operation, params: ps })
        },
        NodeDraft::Scalar { id, value } => {
            let i = match id {
                Some(i) => *i,
                None => { return Err(String::from_str("Node is missing its GraphNode ID")); },
            };
            Ok(NodeIR::Scalar { id: i, value: *value })
        },
    }
}

/// The parameters of a node from its slots, or the first slot's error.
fn params_of_slots(slots: &Vec<ParamSlot>) -> (r: Result<Vec<ParamIR>, String>)
    ensures
        r is Err <==> slots_error(slots@, slots@.len() as int) is Some,
        r matches Err(m) ==> slots_error(slots@, slots@.len() as int) == Some(m@),
        r matches Ok(ps) ==> params_match(ps@, slots@),
{
    proof {
        reveal_strlit("A node has unspecified parameters!");
        reveal_strlit("Parameter references a missing node!");
    }
    let mut ps: Vec<ParamIR> = Vec::new();
    let mut i: usize = 0;
    while i < slots.len()
        invariant
            i <= slots@.len(),
            slots_error(slots@, i as int) is None,
            params_match(ps@, slots@.take(i as int)),
        decreases slots@.len() - i,
    {
        match slots[i].source {
            ParamSource::Unset => {
                proof { lemma_slots_error_stays(slots@, i as int + 1, slots@.len() as int); }
                return Err(String::from_str("A node has unspecified parameters!"));
            },
            ParamSource::Missing => {
                proof { lemma_slots_error_stays(slots@, i as int + 1, slots@.len() as int); }
                return Err(String::from_str("Parameter references a missing node!"));
            },
            ParamSource::Node(from) => {
                ps.push(ParamIR { from_node: from, param_name: Some(slots[i].name.clone()) });
                proof {
                    let t = slots@.take(i + 1);
                    assert forall|q: int| 0 <= q < ps@.len() implies t[q].source == ParamSource::Node((#[trigger] ps@[q]).from_node)
                        && ps@[q].param_name == Some(t[q].name) by {
                        if q < i {
                            assert(t[q] == slots@.take(i as int)[q]);
                        }
                    }
                }
            },
        }
        i = i + 1;
    }
    proof { assert(slots@.take(slots@.len() as int) =~= slots@); }
    Ok(ps)
}

/// Once some slot fails, the first failure stays the error.
proof fn lemma_slots_error_stays(slots: Seq<ParamSlot>, from: int, end: int)
    requires
        0 < from <= end <= slots.len(),
        slots_error(slots, from) is Some,
    ensures
        slots_error(slots, end) == slots_error(slots, from),
    decreases end - from,
{
    if end > from {
        lemma_slots_error_stays(slots, from, end - 1);
    }
}

/// Once some draft fails, the first failure stays the error.
proof fn lemma_drafts_error_stays(ds: Seq<NodeDraft>, from: int, end: int)
    requires
        0 < from <= end <= ds.len(),
        drafts_error(ds, from) is Some,
    ensures
        drafts_error(ds, end) == drafts_error(ds, from),
    decreases end - from,
{
    if end > from {
        lemma_drafts_error_stays(ds, from, end - 1);
    }
}

/// Once some plate fails, the first failure stays the error.
proof fn lemma_plates_error_stays(ps: Seq<EditorPlate>, from: int, end: int)
    requires
        0 < from <= end <= ps.len(),
        plates_error(ps, from) is Some,
    ensures
        plates_error(ps, end) == plates_error(ps, from),
    decreases end - from,
{
    if end > from {
        lemma_plates_error_stays(ps, from, end - 1);
    }
}


/// Two lists of columns hold the same names and values.
pub open spec fn columns_eq(a: Seq<DataColumn>, b: Seq<DataColumn>) -> bool {
    a.len() == b.len() && forall|i: int| 0 <= i < a.len() ==> (#[trigger] a[i]).name == b[i].name && a[i].values@ == b[i].values@
}

/// A copy of a dataset.
fn copy_columns(data: &Vec<DataColumn>) -> (copy: Vec<DataColumn>)
    ensures
        columns_eq(copy@, data@),
{
    let mut copy: Vec<DataColumn> = Vec::new();
    let mut i: usize = 0;
    while i < data.len()
        invariant
            i <= data@.len(),
            copy@.len() == i,
            forall|q: int| 0 <= q < i ==> (#[trigger] copy@[q]).name == data@[q].name && copy@[q].values@ == data@[q].values@,
        decreases data@.len() - i,
    {
        let mut values: Vec<u64> = Vec::new();
        let mut j: usize = 0;
        while j < data[i].values.len()
            invariant
                i < data@.len(),
                j <= data@[i as int].values@.len(),
                values@ == data@[i as int].values@.take(j as int),
            decreases data@[i as int].values@.len() - j,
        {
            values.push(data[i].values[j]);
            proof {
                assert(data@[i as int].values@.take(j + 1) =~= data@[i as int].values@.take(j as int).push(data@[i as int].values@[j as int]));
            }
            j = j + 1;
        }
        proof { assert(data@[i as int].values@.take(data@[i as int].values@.len() as int) =~= data@[i as int].values@); }
        copy.push(DataColumn { name: data[i].name.clone(), values });
        i = i + 1;
    }
    copy
}

/// The message for a plate without a dataset.
fn no_dataset_message(id: u32) -> (m: String)
    ensures
        m@ == "plate "@ + crate::text::decimal(id as nat) + " has no dataset"@,
{
    let mut m = String::new();
    push_str(&mut m, "plate ");
    push_decimal(&mut m, id as u64);
    push_str(&mut m, " has no dataset");
    proof { reveal_strlit("plate "); reveal_strlit(" has no dataset"); }
    m
}

/// The message for a plate that maps a node that is gone.
fn missing_mapping_message(id: u32) -> (m: String)
    ensures
        m@ == "plate "@ + crate::text::decimal(id as nat) + " maps a missing node"@,
{
    let mut m = String::new();
    push_str(&mut m, "plate ");
    push_decimal(&mut m, id as u64);
    push_str(&mut m, " maps a missing node");
    proof { reveal_strlit("plate "); reveal_strlit(" maps a missing node"); }
    m
}

/// The mapping of one plate: each node observes the column of its last entry,
/// entries to `unobserved` left out; `None` where an entry names a missing node.
fn plate_mapping(p: &EditorPlate) -> (r: Option<HashMap<u32, String>>)
    ensures
        r is None <==> exists|j: int| 0 <= j < p.mapping@.len() && #[trigger] p.mapping@[j].0 is None
            && p.mapping@[j].1@ != "unobserved"@,
        r matches Some(m) ==> {
            &&& forall|nid: u32| #[trigger] m@.contains_key(nid) == mapped_to(p.mapping@, nid, p.mapping@.len() as int) is Some
            &&& forall|nid: u32| #[trigger] m@.contains_key(nid) ==> Some(m@[nid]) == mapped_to(p.mapping@, nid, p.mapping@.len() as int)
        },
{
    let mut m: HashMap<u32, String> = HashMap::new();
    let mut j: usize = 0;
    while j < p.mapping.len()
        invariant
            j <= p.mapping@.len(),
            forall|q: int| 0 <= q < j ==> !(#[trigger] p.mapping@[q].0 is None && p.mapping@[q].1@ != "unobserved"@),
            forall|nid: u32| #[trigger] m@.contains_key(nid) == mapped_to(p.mapping@, nid, j as int) is Some,
            forall|nid: u32| #[trigger] m@.contains_key(nid) ==> Some(m@[nid]) == mapped_to(p.mapping@, nid, j as int),
        decreases p.mapping@.len() - j,
    {
        let entry = &p.mapping[j];
        if crate::distributions::text_is(entry.1.as_str(), "unobserved") {
            proof { reveal_strlit("unobserved"); }
        } else {
            proof { reveal_strlit("unobserved"); }
            match entry.0 {
                None => {
                    return None;
                },
                Some(nid) => {
                    m.insert(nid, entry.1.clone());
                },
            }
        }
        j = j + 1;
    }
    Some(m)
}

/// Builds the graph from the editor's nodes, its plates (only those large enough
/// to count) and the positions of its nodes. A node draft is refused for a lost
/// id or a parameter slot that is unlinked or linked to a missing node; then the
/// plates must be disjoint or nested with no node listed twice; then each plate,
/// in order, needs a dataset and a mapping whose nodes all exist. The first
/// failure gives the error. A node id given to several drafts takes the last one.
pub fn compile_ir(drafts: &Vec<NodeDraft>, plates: &Vec<EditorPlate>, positions: &Vec<(u32, Point)>)
    -> (result: Result<GraphIR, String>)
    requires
        forall|a: int, b: int| 0 <= a < b < plates@.len() ==> (#[trigger] plates@[a]).id != (#[trigger] plates@[b]).id,
    ensures
        drafts_error(drafts@, drafts@.len() as int) matches Some(m) ==> result matches Err(e) && e@ == m,
        drafts_error(drafts@, drafts@.len() as int) is None && !layout_ok(plate_entries(plates@), positions@)
            ==> (result matches Err(e) && layout_error(plate_entries(plates@), positions@, e@)),
        drafts_error(drafts@, drafts@.len() as int) is None && layout_ok(plate_entries(plates@), positions@)
            ==> (plates_error(plates@, plates@.len() as int) matches Some(m) ==> (result matches Err(e) && e@ == m)),
        result is Ok <==> drafts_error(drafts@, drafts@.len() as int) is None && layout_ok(plate_entries(plates@), positions@)
            && plates_error(plates@, plates@.len() as int) is None,
        result matches Ok(g) ==> {
            &&& forall|id: u32| #[trigger] g.nodes@.contains_key(id) == last_draft(drafts@, id, drafts@.len() as int) is Some
            &&& forall|id: u32| #[trigger] g.nodes@.contains_key(id)
                ==> node_from(g.nodes@[id], drafts@[last_draft(drafts@, id, drafts@.len() as int)->0])
            &&& forall|pid: u32| #[trigger] g.plates@.contains_key(pid)
                == exists|k: int| 0 <= k < plates@.len() && (#[trigger] plates@[k]).id == pid
            &&& forall|k: int| 0 <= k < plates@.len() ==> plate_compiled(plates@, positions@, k, g.plates@[(#[trigger] plates@[k]).id])
        },
{
    let mut nodes: HashMap<u32, NodeIR> = HashMap::new();
    let mut i: usize = 0;
    while i < drafts.len()
        invariant
            i <= drafts@.len(),
            drafts_error(drafts@, i as int) is None,
            forall|id: u32| #[trigger] nodes@.contains_key(id) == last_draft(drafts@, id, i as int) is Some,
            forall|id: u32| #[trigger] nodes@.contains_key(id) ==> node_from(nodes@[id], drafts@[last_draft(drafts@, id, i as int)->0]),
        decreases drafts@.len() - i,
    {
        match node_of_draft(&drafts[i]) {
            Ok(n) => {
                let id = crate::graph_ir::node_id(&n);
                proof { assert(draft_id(drafts@[i as int]) == Some(id)); }
                nodes.insert(id, n);
            },
            Err(m) => {
                proof { lemma_drafts_error_stays(drafts@, i as int + 1, drafts@.len() as int); }
                return Err(m);
            },
        }
        i = i + 1;
    }
    let mut entries: Vec<(u32, PlateBounds, usize)> = Vec::new();
    let mut k: usize = 0;
    while k < plates.len()
        invariant
            k <= plates@.len(),
            entries@ == plate_entries(plates@).take(k as int),
        decreases plates@.len() - k,
    {
        entries.push((plates[k].id, plates[k].bounds, plates[k].n));
        proof { assert(plate_entries(plates@).take(k + 1) =~= plate_entries(plates@).take(k as int).push(plate_entries(plates@)[k as int])); }
        k = k + 1;
    }
    proof { assert(plate_entries(plates@).take(plates@.len() as int) =~= plate_entries(plates@)); }
    let mut laid_out = match compile_plate_irs(&entries, positions) {
        Ok(m) => m,
        Err(e) => { return Err(e); },
    };
    let ghost es = entries@;
    let ghost layout = laid_out@;
    proof {
        assert forall|q: int| 0 <= q < es.len() implies #[trigger] last_entry(es, q) by {
            assert forall|j: int| q < j < es.len() implies es[j].0 != es[q].0 by {
                assert(plates@[j].id != plates@[q].id);
            }
        }
        assert forall|q: int| 0 <= q < plates@.len() implies laid_out@.contains_key((#[trigger] plates@[q]).id) by {
            assert(es[q].0 == plates@[q].id);
        }
    }
    let mut compiled: HashMap<u32, PlateIR> = HashMap::new();
    let mut k: usize = 0;
    proof {
        assert(drafts_error(drafts@, drafts@.len() as int) is None);
    }
    while k < plates.len()
        invariant
            k <= plates@.len(),
            es == plate_entries(plates@),
            drafts_error(drafts@, drafts@.len() as int) is None,
            layout_ok(es, positions@),
            forall|a: int, b: int| 0 <= a < b < plates@.len() ==> (#[trigger] plates@[a]).id != (#[trigger] plates@[b]).id,
            forall|q: int| 0 <= q < es.len() ==> #[trigger] last_entry(es, q),
            forall|p: u32| #[trigger] layout.contains_key(p) <==> exists|i: int| 0 <= i < es.len() && es[i].0 == p,
            forall|i: int| #[trigger] last_entry(es, i) ==> plate_ir_of(es, positions@, i, layout[es[i].0]),
            forall|q: int| k <= q < plates@.len() ==> laid_out@.contains_key((#[trigger] plates@[q]).id)
                && laid_out@[plates@[q].id] == layout[plates@[q].id],
            plates_error(plates@, k as int) is None,
            forall|pid: u32| #[trigger] compiled@.contains_key(pid) == exists|q: int| 0 <= q < k && (#[trigger] plates@[q]).id == pid,
            forall|q: int| 0 <= q < k ==> plate_compiled(plates@, positions@, q, compiled@[(#[trigger] plates@[q]).id]),
        decreases plates@.len() - k,
    {
        let p = &plates[k];
        if p.data.len() == 0 {
            proof { lemma_plates_error_stays(plates@, k as int + 1, plates@.len() as int); }
            return Err(no_dataset_message(p.id));
        }
        let mapping = match plate_mapping(p) {
            Some(m) => m,
            None => {
                proof { lemma_plates_error_stays(plates@, k as int + 1, plates@.len() as int); }
                return Err(missing_mapping_message(p.id));
            },
        };
        let ir = laid_out.remove(&p.id).unwrap();
        proof {
            assert(es[k as int].0 == p.id);
            assert(last_entry(es, k as int));
            assert(plate_ir_of(es, positions@, k as int, layout[es[k as int].0]));
        }
        let done = PlateIR { id: ir.id, n: ir.n, nodes: ir.nodes, plates: ir.plates, data: copy_columns(&p.data), mapping };
        compiled.insert(p.id, done);
        proof {
            assert forall|q: int| 0 <= q < k + 1 implies plate_compiled(plates@, positions@, q, compiled@[(#[trigger] plates@[q]).id]) by {
                if q < k {
                    assert(plates@[q].id != p.id);
                }
            }
            assert forall|q: int| k + 1 <= q < plates@.len() implies laid_out@.contains_key((#[trigger] plates@[q]).id)
                && laid_out@[plates@[q].id] == layout[plates@[q].id] by {
                assert(plates@[q].id != p.id);
            }
        }
        k = k + 1;
    }
    Ok(GraphIR { nodes, plates: compiled })
}


/// The plates' rectangles as layout entries.
pub open spec fn bounds_entries(plates: Seq<(u32, PlateBounds)>) -> Seq<(u32, PlateBounds, usize)> {
    plates.map_values(|p: (u32, PlateBounds)| (p.0, p.1, 0usize))
}

/// The compiled plate `ir` lists, sorted, exactly the nodes now directly in plate `k`.
pub open spec fn members_unchanged(plates: Seq<(u32, PlateBounds)>, nodes: Seq<(u32, Point)>, k: int, ir: PlateIR) -> bool {
    nondecreasing(ir.nodes@)
        && ir.nodes@.to_multiset() == member_ids(bounds_entries(plates), nodes, k, nodes.len() as int).to_multiset()
}

/// The current plates and node positions differ from the compiled graph in which
/// plates exist or which nodes lie directly in a plate.
pub open spec fn membership_changed(compiled: GraphIR, plates: Seq<(u32, PlateBounds)>, nodes: Seq<(u32, Point)>) -> bool {
    ||| plates.len() != compiled.plates@.len()
    ||| exists|k: int| 0 <= k < plates.len() && !compiled.plates@.contains_key(#[trigger] plates[k].0)
    ||| exists|k: int| 0 <= k < plates.len() && !members_unchanged(plates, nodes, k, compiled.plates@[#[trigger] plates[k].0])
}

/// Whether moving nodes or plates changed what the compiled graph was built from:
/// the set of plates (those large enough to count), or the nodes directly in one.
/// Moving a node within the same scope changes nothing.
pub fn node_plate_membership_changed(compiled: &GraphIR, plates: &Vec<(u32, PlateBounds)>, nodes: &Vec<(u32, Point)>) -> (changed: bool)
    ensures
        changed == membership_changed(*compiled, plates@, nodes@),
{
    if plates.len() != compiled.plates.len() {
        return true;
    }
    let mut entries: Vec<(u32, PlateBounds, usize)> = Vec::new();
    let mut k: usize = 0;
    while k < plates.len()
        invariant
            k <= plates@.len(),
            entries@ == bounds_entries(plates@).take(k as int),
        decreases plates@.len() - k,
    {
        entries.push((plates[k].0, plates[k].1, 0));
        proof { assert(bounds_entries(plates@).take(k + 1) =~= bounds_entries(plates@).take(k as int).push(bounds_entries(plates@)[k as int])); }
        k = k + 1;
    }
    proof { assert(bounds_entries(plates@).take(plates@.len() as int) =~= bounds_entries(plates@)); }
    let mut k: usize = 0;
    while k < plates.len()
        invariant
            k <= plates@.len(),
            entries@ == bounds_entries(plates@),
            plates@.len() == compiled.plates@.len(),
            forall|q: int| 0 <= q < k ==> compiled.plates@.contains_key(#[trigger] plates@[q].0),
        decreases plates@.len() - k,
    {
        if !compiled.plates.contains_key(&plates[k].0) {
            return true;
        }
        k = k + 1;
    }
    let mut k: usize = 0;
    while k < plates.len()
        invariant
            k <= plates@.len(),
            plates@.len() == compiled.plates@.len(),
            entries@ == bounds_entries(plates@),
            forall|q: int| 0 <= q < plates@.len() ==> compiled.plates@.contains_key(#[trigger] plates@[q].0),
            forall|q: int| 0 <= q < k ==> members_unchanged(plates@, nodes@, q, compiled.plates@[#[trigger] plates@[q].0]),
        decreases plates@.len() - k,
    {
        let ir = plate_ir_at(&entries, nodes, k);
        let current = compiled.plates.get(&plates[k].0).unwrap();
        if !crate::selection_groups::same_ids(&ir.nodes, &current.nodes) {
            proof {
                if members_unchanged(plates@, nodes@, k as int, *current) {
                    crate::util::lemma_nondecreasing_unique(ir.nodes@, current.nodes@);
                }
                assert(!members_unchanged(plates@, nodes@, k as int, compiled.plates@[plates@[k as int].0]));
            }
            return true;
        }
        k = k + 1;
    }
    false
}

/// The rectangles of the editor's plates, by id.
pub open spec fn editor_bounds(ps: Seq<EditorPlate>) -> Seq<(u32, PlateBounds)> {
    ps.map_values(|p: EditorPlate| (p.id, p.bounds))
}

proof fn lemma_direct_member_same(a: Seq<(u32, PlateBounds, usize)>, b: Seq<(u32, PlateBounds, usize)>, i: int, p: Point)
    requires
        a.len() == b.len(),
        0 <= i < a.len(),
        forall|j: int| 0 <= j < a.len() ==> (#[trigger] a[j]).0 == b[j].0 && a[j].1 == b[j].1,
    ensures
        direct_member(a, i, p) == direct_member(b, i, p),
{
    assert forall|m: int| 0 <= m < a.len() implies contained_in(a, i, m) == contained_in(b, i, m) by {
        assert(a[m].0 == b[m].0 && a[m].1 == b[m].1);
        assert(a[i].0 == b[i].0 && a[i].1 == b[i].1);
    }
    if direct_member(a, i, p) {
        assert forall|m: int| 0 <= m < b.len() && #[trigger] contained_in(b, i, m) implies !inside(b[m].1, p) by {
            assert(contained_in(a, i, m));
            assert(a[m].1 == b[m].1);
        }
    }
    if direct_member(b, i, p) {
        assert forall|m: int| 0 <= m < a.len() && #[trigger] contained_in(a, i, m) implies !inside(a[m].1, p) by {
            assert(contained_in(b, i, m));
            assert(a[m].1 == b[m].1);
        }
    }
}

proof fn lemma_member_ids_same(a: Seq<(u32, PlateBounds, usize)>, b: Seq<(u32, PlateBounds, usize)>, nodes: Seq<(u32, Point)>, i: int, end: int)
    requires
        a.len() == b.len(),
        0 <= i < a.len(),
        end <= nodes.len(),
        forall|j: int| 0 <= j < a.len() ==> (#[trigger] a[j]).0 == b[j].0 && a[j].1 == b[j].1,
    ensures
        member_ids(a, nodes, i, end) == member_ids(b, nodes, i, end),
    decreases end,
{
    if end > 0 {
        lemma_member_ids_same(a, b, nodes, i, end - 1);
        lemma_direct_member_same(a, b, i, nodes[end - 1].1);
    }
}

/// Moving nodes is presentation only while every plate keeps its direct nodes:
/// when the plates of `g` are those compiled from `plates` with the nodes at
/// `old_positions`, and `node_plate_membership_changed` finds no change for the
/// nodes at `new_positions`, they are also exactly the plates compiled with the
/// nodes at `new_positions`.
pub proof fn lemma_unchanged_membership_keeps_plates(
    plates: Seq<EditorPlate>,
    old_positions: Seq<(u32, Point)>,
    new_positions: Seq<(u32, Point)>,
    g: GraphIR,
)
    requires
        forall|k: int| 0 <= k < plates.len() ==> plate_compiled(plates, old_positions, k, g.plates@[(#[trigger] plates[k]).id]),
        !membership_changed(g, editor_bounds(plates), new_positions),
    ensures
        forall|k: int| 0 <= k < plates.len() ==> plate_compiled(plates, new_positions, k, g.plates@[(#[trigger] plates[k]).id]),
{
    let eb = editor_bounds(plates);
    let a = bounds_entries(eb);
    let b = plate_entries(plates);
    assert forall|k: int| 0 <= k < plates.len() implies plate_compiled(plates, new_positions, k, g.plates@[(#[trigger] plates[k]).id]) by {
        assert(eb[k].0 == plates[k].id);
        assert(members_unchanged(eb, new_positions, k, g.plates@[eb[k].0]));
        assert forall|j: int| 0 <= j < a.len() implies (#[trigger] a[j]).0 == b[j].0 && a[j].1 == b[j].1 by {
            assert(eb[j] == (plates[j].id, plates[j].bounds));
        }
        lemma_member_ids_same(a, b, new_positions, k, new_positions.len() as int);
        assert(plate_compiled(plates, old_positions, k, g.plates@[plates[k].id]));
    }
}

} // verus!
