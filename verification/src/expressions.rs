//! The text of the expression a node computes, as the editor shows it for a link.
use crate::graph_ir::Operation;
use crate::text::push_str;
use std::collections::HashMap;
use vstd::prelude::*;

verus! {

broadcast use {vstd::std_specs::hash::group_hash_axioms, vstd::set::group_set_axioms, vstd::set_lib::group_set_lib_default};

/// What the expression text reads of one node: the name of a random node, the
/// shown value of a scalar, or a compute node's operation and the nodes linked
/// to its parameters (`None` for an unlinked parameter).
#[derive(Debug)]
pub enum ExprNode {
    Random { name: Option<String> },
    Scalar { text: String },
    Compute { operation: Operation, params: Vec<Option<u64>> },
}

/// The operation is written between its two arguments.
pub open spec fn is_infix(op: Operation) -> bool {
    op is Add || op is Subtract || op is Multiply || op is Divide || op is Power
}

/// The symbol written between the arguments of an infix operation.
pub open spec fn infix_symbol(op: Operation) -> Seq<char> {
    match op {
        Operation::Add => " + "@,
        Operation::Subtract => " - "@,
        Operation::Multiply => " * "@,
        Operation::Divide => " / "@,
        _ => " ^ "@,
    }
}

/// The nodes not yet being expanded.
pub open spec fn expr_measure(nodes: Map<u64, ExprNode>, visiting: Set<u64>) -> nat {
    nodes.dom().difference(visiting).len()
}

/// The text of node `id`; a node already being expanded, or missing, is `?`.
/// Inside an operation, an infix expression is put in parentheses.
pub open spec fn expr_text(nodes: Map<u64, ExprNode>, id: u64, visiting: Set<u64>, nested: bool) -> Seq<char>
    decreases expr_measure(nodes, visiting), 0nat,
{
    if visiting.contains(id) || !nodes.contains_key(id) || !nodes.dom().finite() {
        "?"@
    } else {
        match nodes[id] {
            ExprNode::Random { name } => match name {
                Some(n) => n@,
                None => "var"@,
            },
            ExprNode::Scalar { text } => text@,
            ExprNode::Compute { operation, params } => {
                let inner = visiting.insert(id);
                proof {
                    assert(nodes.dom().difference(inner) =~= nodes.dom().difference(visiting).remove(id));
                }
                let e = if is_infix(operation) {
                    arg_text(nodes, params@, 0, inner, true) + infix_symbol(operation) + arg_text(nodes, params@, 1, inner, true)
                } else if operation is Exponential {
                    "exp("@ + arg_text(nodes, params@, 0, inner, false) + ")"@
                } else if operation is Logarithm {
                    "log("@ + arg_text(nodes, params@, 0, inner, false) + ")"@
                } else {
                    let name = if operation is Sum { "sum"@ } else { "product"@ };
                    if params@.len() == 0 { name + "(?)"@ } else { name + "("@ + args_text(nodes, params@, inner, params@.len() as int) + ")"@ }
                };
                if nested && is_infix(operation) { "("@ + e + ")"@ } else { e }
            },
        }
    }
}

/// The text of parameter `k`: `?` where it is missing or unlinked.
pub open spec fn arg_text(nodes: Map<u64, ExprNode>, params: Seq<Option<u64>>, k: int, visiting: Set<u64>, nested: bool) -> Seq<char>
    decreases expr_measure(nodes, visiting), 1nat,
{
    if 0 <= k < params.len() && params[k] is Some {
        expr_text(nodes, params[k]->0, visiting, nested)
    } else {
        "?"@
    }
}

/// The texts of the first `end` parameters, separated by `, `.
pub open spec fn args_text(nodes: Map<u64, ExprNode>, params: Seq<Option<u64>>, visiting: Set<u64>, end: int) -> Seq<char>
    decreases expr_measure(nodes, visiting), end + 2,
{
    if end <= 0 {
        Seq::empty()
    } else if end == 1 {
        arg_text(nodes, params, 0, visiting, false)
    } else {
        args_text(nodes, params, visiting, end - 1) + ", "@ + arg_text(nodes, params, end - 1, visiting, false)
    }
}

fn operation_is_infix(op: Operation) -> (r: bool)
    ensures
        r == is_infix(op),
{
    match op {
        Operation::Add | Operation::Subtract | Operation::Multiply | Operation::Divide | Operation::Power => true,
        _ => false,
    }
}

fn push_infix_symbol(out: &mut String, op: Operation)
    requires
        is_infix(op),
    ensures
        final(out)@ == old(out)@ + infix_symbol(op),
{
    proof { reveal_strlit(" + "); reveal_strlit(" - "); reveal_strlit(" * "); reveal_strlit(" / "); reveal_strlit(" ^ "); }
    match op {
        Operation::Add => push_str(out, " + "),
        Operation::Subtract => push_str(out, " - "),
        Operation::Multiply => push_str(out, " * "),
        Operation::Divide => push_str(out, " / "),
        _ => push_str(out, " ^ "),
    }
}

/// Whether `x` is among the ids.
fn listed(ids: &Vec<u64>, x: u64) -> (r: bool)
    ensures
        r == ids@.contains(x),
{
    let mut i: usize = 0;
    while i < ids.len()
        invariant
            i <= ids@.len(),
            forall|q: int| 0 <= q < i ==> ids@[q] != x,
        decreases ids@.len() - i,
    {
        if ids[i] == x {
            return true;
        }
        i = i + 1;
    }
    false
}

fn expression_of(nodes: &HashMap<u64, ExprNode>, id: u64, visiting: Vec<u64>, nested: bool) -> (r: (String, Vec<u64>))
    ensures
        r.0@ == expr_text(nodes@, id, visiting@.to_set(), nested),
        r.1@ == visiting@,
    decreases expr_measure(nodes@, visiting@.to_set()), 0nat,
{
    let mut visiting = visiting;
    let ghost vis = visiting@.to_set();
    proof { reveal_strlit("?"); reveal_strlit("var"); }
    if listed(&visiting, id) {
        return (String::from_str("?"), visiting);
    }
    let node = match nodes.get(&id) {
        Some(n) => n,
        None => {
            return (String::from_str("?"), visiting);
        },
    };
    match node {
        ExprNode::Random { name } => {
            let text = match name {
                Some(n) => n.clone(),
                None => String::from_str("var"),
            };
            (text, visiting)
        },
        ExprNode::Scalar { text } => (text.clone(), visiting),
        ExprNode::Compute { operation, params } => {
            let ghost before = visiting@;
            visiting.push(id);
            proof {
                before.lemma_push_to_set_commute(id);
                assert(visiting@ == before.push(id));
                assert(visiting@.to_set() =~= vis.insert(id));
                assert(nodes@.dom().difference(vis.insert(id)) =~= nodes@.dom().difference(vis).remove(id));
            }
            let op = *operation;
            let mut e = String::new();
            if operation_is_infix(op) {
                let (left, v1) = argument_of(nodes, params, 0, visiting, true);
                let (right, v2) = argument_of(nodes, params, 1, v1, true);
                visiting = v2;
                push_str(&mut e, left.as_str());
                push_infix_symbol(&mut e, op);
                push_str(&mut e, right.as_str());
            } else if let Operation::Exponential = op {
                let (arg, v1) = argument_of(nodes, params, 0, visiting, false);
                visiting = v1;
                push_str(&mut e, "exp(");
                push_str(&mut e, arg.as_str());
                push_str(&mut e, ")");
                proof { reveal_strlit("exp("); reveal_strlit(")"); }
            } else if let Operation::Logarithm = op {
                let (arg, v1) = argument_of(nodes, params, 0, visiting, false);
                visiting = v1;
                push_str(&mut e, "log(");
                push_str(&mut e, arg.as_str());
                push_str(&mut e, ")");
                proof { reveal_strlit("log("); reveal_strlit(")"); }
            } else {
                if let Operation::Sum = op {
                    push_str(&mut e, "sum");
                } else {
                    push_str(&mut e, "product");
                }
                proof { reveal_strlit("sum"); reveal_strlit("product"); reveal_strlit("(?)"); reveal_strlit("("); reveal_strlit(")"); }
                if params.len() == 0 {
                    push_str(&mut e, "(?)");
                } else {
                    let (args, v1) = arguments_of(nodes, params, visiting);
                    visiting = v1;
                    push_str(&mut e, "(");
                    push_str(&mut e, args.as_str());
                    push_str(&mut e, ")");
                }
            }
            let text = if nested && operation_is_infix(op) {
                let mut t = String::new();
                push_str(&mut t, "(");
                push_str(&mut t, e.as_str());
                push_str(&mut t, ")");
                proof { reveal_strlit("("); reveal_strlit(")"); }
                t
            } else {
                e
            };
            visiting.pop();
            proof { assert(visiting@ =~= before); }
            (text, visiting)
        },
    }
}

fn argument_of(nodes: &HashMap<u64, ExprNode>, params: &Vec<Option<u64>>, k: usize, visiting: Vec<u64>, nested: bool)
    -> (r: (String, Vec<u64>))
    ensures
        r.0@ == arg_text(nodes@, params@, k as int, visiting@.to_set(), nested),
        r.1@ == visiting@,
    decreases expr_measure(nodes@, visiting@.to_set()), 1nat,
{
    if k < params.len() {
        match params[k] {
            Some(e) => {
                return expression_of(nodes, e, visiting, nested);
            },
            None => {},
        }
    }
    proof { reveal_strlit("?"); }
    (String::from_str("?"), visiting)
}

fn arguments_of(nodes: &HashMap<u64, ExprNode>, params: &Vec<Option<u64>>, entry: Vec<u64>) -> (r: (String, Vec<u64>))
    ensures
        r.0@ == args_text(nodes@, params@, entry@.to_set(), params@.len() as int),
        r.1@ == entry@,
    decreases expr_measure(nodes@, entry@.to_set()), params@.len() + 2,
{
    let ghost vis = entry@;
    let mut visiting = entry;
    let mut text = String::new();
    let mut k: usize = 0;
    proof { reveal_strlit(", "); }
    while k < params.len()
        invariant
            k <= params@.len(),
            visiting@ == vis,
            vis == entry@,
            text@ == args_text(nodes@, params@, vis.to_set(), k as int),
        decreases params@.len() - k,
    {
        let (arg, v1) = argument_of(nodes, params, k, visiting, false);
        visiting = v1;
        if k > 0 {
            push_str(&mut text, ", ");
        }
        push_str(&mut text, arg.as_str());
        k = k + 1;
    }
    (text, visiting)
}

/// The expression node `id` computes, written with the names of random nodes, the
/// shown values of scalars and the operations of compute nodes; a missing node, an
/// unlinked parameter, or a node met again inside its own expression is `?`.
pub fn node_expression(nodes: &HashMap<u64, ExprNode>, id: u64, nested_inside_operation: bool) -> (text: String)
    ensures
        text@ == expr_text(nodes@, id, Set::empty(), nested_inside_operation),
{
    let visiting: Vec<u64> = Vec::new();
    proof { assert(visiting@.to_set() =~= Set::<u64>::empty()); }
    let (text, _) = expression_of(nodes, id, visiting, nested_inside_operation);
    text
}


/// For the first `end` links that end at `node`, in order: the link's source and
/// the text of the expression it computes.
pub open spec fn incoming_labels(nodes: Map<u64, ExprNode>, links: Seq<(u64, Option<u64>)>, node: u64, end: int) -> Seq<(u64, Seq<char>)>
    decreases end,
{
    if end <= 0 {
        Seq::empty()
    } else {
        let before = incoming_labels(nodes, links, node, end - 1);
        let (from, to) = links[end - 1];
        if to == Some(node) { before.push((from, expr_text(nodes, from, Set::empty(), false))) } else { before }
    }
}

/// The nodes linked into `node`, each with the text of the expression it
/// computes; `links` lists each finished link's source and target.
pub fn get_ents_and_labels(nodes: &HashMap<u64, ExprNode>, links: &Vec<(u64, Option<u64>)>, node: u64) -> (labels: Vec<(u64, String)>)
    ensures
        labels@.map_values(|l: (u64, String)| (l.0, l.1@)) == incoming_labels(nodes@, links@, node, links@.len() as int),
{
    let mut labels: Vec<(u64, String)> = Vec::new();
    let mut i: usize = 0;
    while i < links.len()
        invariant
            i <= links@.len(),
            labels@.map_values(|l: (u64, String)| (l.0, l.1@)) == incoming_labels(nodes@, links@, node, i as int),
        decreases links@.len() - i,
    {
        let (from, to) = links[i];
        if to == Some(node) {
            let text = node_expression(nodes, from, false);
            let ghost before = labels@;
            labels.push((from, text));
            proof {
                assert(labels@.map_values(|l: (u64, String)| (l.0, l.1@)) =~= before.map_values(|l: (u64, String)| (l.0, l.1@)).push((from, text@)));
            }
        }
        i = i + 1;
    }
    labels
}

} // verus!
