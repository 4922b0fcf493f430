//! The execution plan of a graph model: every concrete node instance in the order
//! in which the model evaluates it, with the parameter instances it reads.
use crate::graph_ir::{node_id_spec, param_producers, NodeIR, ParamIR};
use crate::text::{decimal, push_decimal, push_str};
use std::collections::HashMap;
use vstd::prelude::*;

verus! {

broadcast use {vstd::std_specs::hash::group_hash_axioms, vstd::seq_lib::group_seq_properties};

/// One concrete instance of a node: its id and its row index in each enclosing plate.
#[derive(Clone, Debug, PartialEq, Eq, Hash)]
pub struct InstanceKey {
    pub node_id: u32,
    pub indices: Vec<usize>,
}

/// A parameter with the plate path of the node that produces it.
#[derive(Clone, Debug)]
pub struct CompiledParam {
    pub from_node: u32,
    /// How many plates enclose the producer.
    pub producer_depth: usize,
    /// The producer's plate path.
    pub producer_plate_ids: Vec<u32>,
}

/// `cp` describes a parameter fed by `from` whose plate path is stored in `paths`.
pub open spec fn compiled_param_ok(paths: Map<u32, Vec<u32>>, from: u32, cp: CompiledParam) -> bool {
    &&& paths.contains_key(from)
    &&& cp.from_node == from
    &&& cp.producer_depth == paths[from]@.len()
    &&& cp.producer_plate_ids@ == paths[from]@
}

/// `out` compiles the parameters fed by `froms`, in order.
pub open spec fn compiled_params_ok(paths: Map<u32, Vec<u32>>, froms: Seq<u32>, out: Seq<CompiledParam>) -> bool {
    &&& out.len() == froms.len()
    &&& forall|i: int| 0 <= i < froms.len() ==> compiled_param_ok(paths, froms[i], #[trigger] out[i])
}

/// The parameters with the plate path of each producer. Fails, naming the node,
/// at the first parameter whose producer has no stored path.
pub fn compiled_params(params: &Vec<ParamIR>, node_paths: &HashMap<u32, Vec<u32>>) -> (result: Result<Vec<CompiledParam>, String>)
    ensures
        result is Ok <==> forall|i: int| 0 <= i < params@.len() ==> node_paths@.contains_key(#[trigger] params@[i].from_node),
        result matches Ok(out) ==> compiled_params_ok(node_paths@, param_producers(params@), out@),
        result matches Err(msg) ==> exists|i: int| 0 <= i < params@.len() && !node_paths@.contains_key(#[trigger] params@[i].from_node)
            && (forall|k: int| 0 <= k < i ==> node_paths@.contains_key(params@[k].from_node))
            && msg@ == "parameter references missing node "@ + decimal(params@[i].from_node as nat),
{
    let ghost froms = param_producers(params@);
    let mut out: Vec<CompiledParam> = Vec::new();
    let mut i: usize = 0;
    while i < params.len()
        invariant
            i <= params@.len(),
            froms == param_producers(params@),
            out@.len() == i,
            forall|k: int| 0 <= k < i ==> node_paths@.contains_key(#[trigger] params@[k].from_node),
            forall|k: int| 0 <= k < i ==> compiled_param_ok(node_paths@, froms[k], #[trigger] out@[k]),
        decreases params@.len() - i,
    {
        let from = params[i].from_node;
        match node_paths.get(&from) {
            Some(path) => {
                out.push(CompiledParam {
                    from_node: from,
                    producer_depth: path.len(),
                    producer_plate_ids: crate::util::copy_ids(path),
                });
            },
            None => {
                let mut msg = String::new();
                push_str(&mut msg, "parameter references missing node ");
                push_decimal(&mut msg, from as u64);
                proof { reveal_strlit("parameter references missing node "); }
                return Err(msg);
            },
        }
        i = i + 1;
    }
    Ok(out)
}

/// The address segments `/plate#p[i]` for the first `k` plate and index pairs.
pub open spec fn plate_segments(plate_ids: Seq<u32>, indices: Seq<usize>, k: nat) -> Seq<char>
    decreases k,
{
    if k == 0 {
        Seq::empty()
    } else {
        plate_segments(plate_ids, indices, (k - 1) as nat) + "/plate#"@ + decimal(plate_ids[k - 1] as nat)
            + "["@ + decimal(indices[k - 1] as nat) + "]"@
    }
}

/// The address of a node instance: `node#id` followed by one `/plate#p[i]` for each
/// plate id paired with an index, as far as both lists go.
pub open spec fn address_text(node_id: u32, plate_ids: Seq<u32>, indices: Seq<usize>) -> Seq<char> {
    let k = if plate_ids.len() <= indices.len() { plate_ids.len() } else { indices.len() };
    "node#"@ + decimal(node_id as nat) + plate_segments(plate_ids, indices, k)
}

/// The address of a node instance, such as `node#3/plate#10[1]`.
pub fn instance_address(node_id: u32, plate_ids: &Vec<u32>, indices: &Vec<usize>) -> (address: String)
    ensures
        address@ == address_text(node_id, plate_ids@, indices@),
{
    let mut address = String::new();
    push_str(&mut address, "node#");
    push_decimal(&mut address, node_id as u64);
    proof { reveal_strlit("node#"); reveal_strlit("/plate#"); reveal_strlit("["); reveal_strlit("]"); }
    let ghost head = address@;
    let k: usize = if plate_ids.len() <= indices.len() { plate_ids.len() } else { indices.len() };
    let mut i: usize = 0;
    while i < k
        invariant
            i <= k,
            k <= plate_ids@.len(),
            k <= indices@.len(),
            address@ == head + plate_segments(plate_ids@, indices@, i as nat),
        decreases k - i,
    {
        push_str(&mut address, "/plate#");
        push_decimal(&mut address, plate_ids[i] as u64);
        push_str(&mut address, "[");
        push_decimal(&mut address, indices[i] as u64);
        push_str(&mut address, "]");
        i = i + 1;
    }
    address
}

/// The key of the producer instance a parameter reads from a consumer instance at
/// `consumer_indices`: the producer's id with the leading indices of its depth.
pub fn param_instance_key(param: &CompiledParam, consumer_indices: &Vec<usize>) -> (result: Result<InstanceKey, String>)
    ensures
        result is Ok <==> param.producer_depth <= consumer_indices@.len(),
        result matches Ok(key) ==> key.node_id == param.from_node
            && key.indices@ == consumer_indices@.take(param.producer_depth as int),
        result matches Err(msg) ==> msg@ == "node "@ + decimal(param.from_node as nat)
            + " requires a deeper plate scope than its consumer"@,
{
    if param.producer_depth > consumer_indices.len() {
        let mut msg = String::new();
        push_str(&mut msg, "node ");
        push_decimal(&mut msg, param.from_node as u64);
        push_str(&mut msg, " requires a deeper plate scope than its consumer");
        proof { reveal_strlit("node "); reveal_strlit(" requires a deeper plate scope than its consumer"); }
        return Err(msg);
    }
    let mut indices: Vec<usize> = Vec::new();
    let mut i: usize = 0;
    while i < param.producer_depth
        invariant
            i <= param.producer_depth <= consumer_indices@.len(),
            indices@ == consumer_indices@.take(i as int),
        decreases param.producer_depth - i,
    {
        indices.push(consumer_indices[i]);
        proof {
            assert(consumer_indices@.take(i + 1) =~= consumer_indices@.take(i as int).push(consumer_indices@[i as int]));
        }
        i = i + 1;
    }
    Ok(InstanceKey { node_id: param.from_node, indices })
}

/// The keys of the producer instances that a consumer instance reads, in parameter
/// order; fails at the first parameter whose producer is nested deeper than the consumer.
pub fn resolve_param_keys(params: &Vec<CompiledParam>, consumer_indices: &Vec<usize>) -> (result: Result<Vec<InstanceKey>, String>)
    ensures
        result is Ok <==> forall|i: int| 0 <= i < params@.len() ==> #[trigger] params@[i].producer_depth <= consumer_indices@.len(),
        result matches Ok(keys) ==> keys@.len() == params@.len() && forall|i: int| 0 <= i < params@.len() ==> {
            &&& #[trigger] keys@[i].node_id == params@[i].from_node
            &&& keys@[i].indices@ == consumer_indices@.take(params@[i].producer_depth as int)
        },
        result matches Err(msg) ==> exists|i: int| 0 <= i < params@.len()
            && #[trigger] params@[i].producer_depth > consumer_indices@.len()
            && (forall|k: int| 0 <= k < i ==> params@[k].producer_depth <= consumer_indices@.len())
            && msg@ == "node "@ + decimal(params@[i].from_node as nat) + " requires a deeper plate scope than its consumer"@,
{
    let mut keys: Vec<InstanceKey> = Vec::new();
    let mut i: usize = 0;
    while i < params.len()
        invariant
            i <= params@.len(),
            keys@.len() == i,
            forall|k: int| 0 <= k < i ==> #[trigger] params@[k].producer_depth <= consumer_indices@.len(),
            forall|k: int| 0 <= k < i ==> {
                &&& #[trigger] keys@[k].node_id == params@[k].from_node
                &&& keys@[k].indices@ == consumer_indices@.take(params@[k].producer_depth as int)
            },
        decreases params@.len() - i,
    {
        match param_instance_key(&params[i], consumer_indices) {
            Ok(key) => keys.push(key),
            Err(msg) => { return Err(msg); },
        }
        i = i + 1;
    }
    Ok(keys)
}

/// The name under which a node's values are listed.
pub open spec fn display_name_text(node: NodeIR) -> Seq<char> {
    match node {
        NodeIR::Random { id, label: Some(label), .. } => label@ + " (node "@ + decimal(id as nat) + ")"@,
        _ => "node "@ + decimal(node_id_spec(node) as nat),
    }
}

/// `label (node id)` for a labelled random node, `node id` otherwise.
pub fn node_display_name(node: &NodeIR) -> (name: String)
    ensures
        name@ == display_name_text(*node),
{
    let mut name = String::new();
    proof { reveal_strlit(" (node "); reveal_strlit(")"); reveal_strlit("node "); }
    match node {
        NodeIR::Random { id, label: Some(label), .. } => {
            push_str(&mut name, label.as_str());
            push_str(&mut name, " (node ");
            push_decimal(&mut name, *id as u64);
            push_str(&mut name, ")");
        },
        _ => {
            push_str(&mut name, "node ");
            push_decimal(&mut name, crate::graph_ir::node_id(node) as u64);
        },
    }
    name
}

} // verus!
