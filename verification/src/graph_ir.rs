//! Intermediate representation of a probabilistic graph and its plates.
use std::collections::HashMap;
use vstd::prelude::*;

verus! {

broadcast use vstd::std_specs::hash::group_hash_axioms;

/// A deterministic operation computed by a compute node.
#[derive(Clone, Copy, Debug, PartialEq, Eq, Structural)]
pub enum Operation {
    Add,
    Subtract,
    Multiply,
    Divide,
    Exponential,
    Logarithm,
    Power,
    Sum,
    Product,
}

/// Reference from a node parameter to the node that supplies its value.
#[derive(Clone, Debug)]
pub struct ParamIR {
    /// The id of the node that feeds this parameter.
    pub from_node: u32,
    /// The name of the distribution parameter it feeds, where there is one.
    pub param_name: Option<String>,
}

/// One node of the graph. A scalar value is held as the bit pattern of an IEEE-754
/// binary64 number.
#[derive(Clone, Debug)]
pub enum NodeIR {
    Random { id: u32, label: Option<String>, dist_type: String, params: Vec<ParamIR> },
    Scalar { id: u32, value: u64 },
    Compute { id: u32, operation: Operation, params: Vec<ParamIR> },
}

/// One named column of a plate's dataset; each value is the bit pattern of an
/// IEEE-754 binary64 number.
#[derive(Clone, Debug)]
pub struct DataColumn {
    pub name: String,
    pub values: Vec<u64>,
}

/// Dataset-backed repeated scope containing its direct nodes and child plates.
#[derive(Clone, Debug)]
pub struct PlateIR {
    pub id: u32,
    pub n: usize,
    pub nodes: Vec<u32>,
    pub plates: Vec<u32>,
    pub data: Vec<DataColumn>,
    /// Dataset column observed by each mapped direct member node.
    pub mapping: HashMap<u32, String>,
}

/// Intermediate representation of the complete probabilistic graph and its plates.
#[derive(Clone, Debug)]
pub struct GraphIR {
    /// Nodes keyed by their graph id.
    pub nodes: HashMap<u32, NodeIR>,
    /// Plates keyed by their graph id.
    pub plates: HashMap<u32, PlateIR>,
}

impl GraphIR {
    /// Creates an empty graph with no nodes and no plates.
    pub fn new() -> (g: Self)
        ensures
            g.nodes@ == Map::<u32, NodeIR>::empty(),
            g.plates@ == Map::<u32, PlateIR>::empty(),
    {
        GraphIR { nodes: HashMap::new(), plates: HashMap::new() }
    }
}

/// The ids of the nodes that feed the parameters, in parameter order.
pub open spec fn param_producers(params: Seq<ParamIR>) -> Seq<u32> {
    params.map_values(|p: ParamIR| p.from_node)
}

/// The parameters of a node; scalar nodes have none.
pub open spec fn node_params_spec(node: NodeIR) -> Seq<ParamIR> {
    match node {
        NodeIR::Random { params, .. } => params@,
        NodeIR::Compute { params, .. } => params@,
        NodeIR::Scalar { .. } => Seq::empty(),
    }
}

/// The ids of the nodes a node depends on, in parameter order.
pub open spec fn producers(node: NodeIR) -> Seq<u32> {
    param_producers(node_params_spec(node))
}

/// The id stored in a node.
pub open spec fn node_id_spec(node: NodeIR) -> u32 {
    match node {
        NodeIR::Random { id, .. } => id,
        NodeIR::Scalar { id, .. } => id,
        NodeIR::Compute { id, .. } => id,
    }
}

/// Each node id mapped to the ids it depends on.
pub open spec fn dependencies(nodes: Map<u32, NodeIR>) -> Map<u32, Seq<u32>> {
    nodes.map_values(|n: NodeIR| producers(n))
}

/// Some parameter refers to a node id that is not in the graph.
pub open spec fn references_missing(nodes: Map<u32, NodeIR>) -> bool {
    exists|c: u32, i: int|
        nodes.contains_key(c) && 0 <= i < producers(nodes[c]).len() && !nodes.contains_key(
            #[trigger] producers(nodes[c])[i],
        )
}

/// The id stored in a node.
pub fn node_id(node: &NodeIR) -> (id: u32)
    ensures
        id == node_id_spec(*node),
{
    match node {
        NodeIR::Random { id, .. } => *id,
        NodeIR::Scalar { id, .. } => *id,
        NodeIR::Compute { id, .. } => *id,
    }
}

/// The parameters of a node; scalar nodes have none.
pub fn node_params(node: &NodeIR) -> (params: Vec<ParamIR>)
    ensures
        params@ == node_params_spec(*node),
{
    match node {
        NodeIR::Random { params, .. } => copy_params(params),
        NodeIR::Compute { params, .. } => copy_params(params),
        NodeIR::Scalar { .. } => Vec::new(),
    }
}

pub(crate) fn copy_params(params: &Vec<ParamIR>) -> (copy: Vec<ParamIR>)
    ensures
        copy@ == params@,
{
    let mut copy: Vec<ParamIR> = Vec::new();
    let mut i: usize = 0;
    while i < params.len()
        invariant
            i <= params@.len(),
            copy@ == params@.take(i as int),
        decreases params@.len() - i,
    {
        let param_name = match &params[i].param_name {
            Some(name) => Some(name.clone()),
            None => None,
        };
        copy.push(ParamIR { from_node: params[i].from_node, param_name });
        proof {
            assert(params@.take(i + 1) =~= params@.take(i as int).push(params@[i as int]));
        }
        i = i + 1;
    }
    assert(params@.take(params@.len() as int) =~= params@);
    copy
}

/// The ids of the nodes a node depends on, in parameter order.
pub fn node_producers(node: &NodeIR) -> (ids: Vec<u32>)
    ensures
        ids@ == producers(*node),
{
    let params = node_params(node);
    let mut ids: Vec<u32> = Vec::new();
    let mut i: usize = 0;
    while i < params.len()
        invariant
            i <= params@.len(),
            params@ == node_params_spec(*node),
            ids@ == param_producers(params@.take(i as int)),
        decreases params@.len() - i,
    {
        ids.push(params[i].from_node);
        proof {
            assert(params@.take(i + 1) =~= params@.take(i as int).push(params@[i as int]));
            assert(param_producers(params@.take(i + 1)) =~= param_producers(params@.take(i as int)).push(params@[i as int].from_node));
        }
        i = i + 1;
    }
    assert(params@.take(params@.len() as int) =~= params@);
    ids
}

} // verus!
