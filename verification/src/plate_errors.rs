//! Errors reported while validating plates and plate dependencies.
use crate::text::{
    debug_text, decimal, id_list, push_debug_str, push_decimal, push_id_list, push_str,
};
use vstd::prelude::*;

verus! {

/// A violated plate rule, with the ids and names involved.
#[derive(Clone, Debug, PartialEq, Eq)]
pub enum PlateError {
    MismatchedId { key: u32, stored: u32 },
    NoDataset { plate: u32 },
    DuplicateColumn { plate: u32, column: String },
    DuplicateNode { plate: u32, node: u32 },
    DuplicateChild { plate: u32, child: u32 },
    MissingNode { plate: u32, node: u32 },
    MultipleOwners { node: u32, first: u32, second: u32 },
    UnownedMapping { plate: u32, column: String, node: u32 },
    MissingColumn { plate: u32, node: u32, column: String },
    ComputeColumn { plate: u32, column: String, node: u32 },
    SelfContaining { plate: u32 },
    MissingChild { plate: u32, child: u32 },
    MultipleParents { child: u32, first: u32, second: u32 },
    /// A plate cycle, written with its first plate repeated at the end.
    Cycle { cycle: Vec<u32> },
    NoScope { node: u32 },
    MissingProducer { consumer: u32, producer: u32 },
    InvalidDependency { producer: u32, producer_path: Vec<u32>, consumer: u32, consumer_path: Vec<u32> },
}

pub open spec fn dec(n: u32) -> Seq<char> {
    decimal(n as nat)
}

/// `root` for the empty path, the bracketed list of plate ids otherwise.
pub open spec fn scope_text(path: Seq<u32>) -> Seq<char> {
    if path.len() == 0 { "root"@ } else { id_list(path) }
}

impl PlateError {
    pub open spec fn message_spec(self) -> Seq<char> {
        match self {
            PlateError::MismatchedId { key, stored } => "plate map key "@ + dec(key)
                + " does not match its stored ID "@ + dec(stored),
            PlateError::NoDataset { plate } => "plate "@ + dec(plate) + " has no dataset"@,
            PlateError::DuplicateColumn { plate, column } => "plate "@ + dec(plate)
                + " has dataset column "@ + debug_text(column@) + " more than once"@,
            PlateError::DuplicateNode { plate, node } => "plate "@ + dec(plate) + " lists node "@
                + dec(node) + " more than once"@,
            PlateError::DuplicateChild { plate, child } => "plate "@ + dec(plate)
                + " lists child plate "@ + dec(child) + " more than once"@,
            PlateError::MissingNode { plate, node } => "plate "@ + dec(plate)
                + " contains missing node "@ + dec(node),
            PlateError::MultipleOwners { node, first, second } => "node "@ + dec(node)
                + " belongs directly to both plate "@ + dec(first) + " and plate "@ + dec(second),
            PlateError::UnownedMapping { plate, column, node } => "plate "@ + dec(plate)
                + " maps column "@ + debug_text(column@) + " to node "@ + dec(node)
                + ", which is not a direct member"@,
            PlateError::MissingColumn { plate, node, column } => "plate "@ + dec(plate)
                + " maps node "@ + dec(node) + " to missing column "@ + debug_text(column@),
            PlateError::ComputeColumn { plate, column, node } => "plate "@ + dec(plate)
                + " cannot map dataset column "@ + debug_text(column@) + " to compute node "@
                + dec(node),
            PlateError::SelfContaining { plate } => "plate "@ + dec(plate) + " cannot contain itself"@,
            PlateError::MissingChild { plate, child } => "plate "@ + dec(plate)
                + " contains missing child plate "@ + dec(child),
            PlateError::MultipleParents { child, first, second } => "plate "@ + dec(child)
                + " has multiple parents: "@ + dec(first) + " and "@ + dec(second),
            PlateError::Cycle { cycle } => "plate hierarchy contains a cycle: "@ + id_list(cycle@),
            PlateError::NoScope { node } => "node "@ + dec(node)
                + " has no scope after plate normalization"@,
            PlateError::MissingProducer { consumer, producer } => "node "@ + dec(consumer)
                + " references missing node "@ + dec(producer),
            PlateError::InvalidDependency { producer, producer_path, consumer, consumer_path } =>
                "invalid plate dependency from node "@ + dec(producer) + " in scope "@
                + scope_text(producer_path@) + " to node "@ + dec(consumer) + " in scope "@
                + scope_text(consumer_path@),
        }
    }

    /// The human-readable description of the error.
    pub fn message(&self) -> (text: String)
        ensures
            text@ == self.message_spec(),
    {
        let mut t = String::new();
        match self {
            PlateError::MismatchedId { key, stored } => {
                push_str(&mut t, "plate map key ");
                push_decimal(&mut t, *key as u64);
                push_str(&mut t, " does not match its stored ID ");
                push_decimal(&mut t, *stored as u64);
            },
            PlateError::NoDataset { plate } => {
                push_str(&mut t, "plate ");
                push_decimal(&mut t, *plate as u64);
                push_str(&mut t, " has no dataset");
            },
            PlateError::DuplicateColumn { plate, column } => {
                push_str(&mut t, "plate ");
                push_decimal(&mut t, *plate as u64);
                push_str(&mut t, " has dataset column ");
                push_debug_str(&mut t, column);
                push_str(&mut t, " more than once");
            },
            PlateError::DuplicateNode { plate, node } => {
                push_str(&mut t, "plate ");
                push_decimal(&mut t, *plate as u64);
                push_str(&mut t, " lists node ");
                push_decimal(&mut t, *node as u64);
                push_str(&mut t, " more than once");
            },
            PlateError::DuplicateChild { plate, child } => {
                push_str(&mut t, "plate ");
                push_decimal(&mut t, *plate as u64);
                push_str(&mut t, " lists child plate ");
                push_decimal(&mut t, *child as u64);
                push_str(&mut t, " more than once");
            },
            PlateError::MissingNode { plate, node } => {
                push_str(&mut t, "plate ");
                push_decimal(&mut t, *plate as u64);
                push_str(&mut t, " contains missing node ");
                push_decimal(&mut t, *node as u64);
            },
            PlateError::MultipleOwners { node, first, second } => {
                push_str(&mut t, "node ");
                push_decimal(&mut t, *node as u64);
                push_str(&mut t, " belongs directly to both plate ");
                push_decimal(&mut t, *first as u64);
                push_str(&mut t, " and plate ");
                push_decimal(&mut t, *second as u64);
            },
            PlateError::UnownedMapping { plate, column, node } => {
                push_str(&mut t, "plate ");
                push_decimal(&mut t, *plate as u64);
                push_str(&mut t, " maps column ");
                push_debug_str(&mut t, column);
                push_str(&mut t, " to node ");
                push_decimal(&mut t, *node as u64);
                push_str(&mut t, ", which is not a direct member");
            },
            PlateError::MissingColumn { plate, node, column } => {
                push_str(&mut t, "plate ");
                push_decimal(&mut t, *plate as u64);
                push_str(&mut t, " maps node ");
                push_decimal(&mut t, *node as u64);
                push_str(&mut t, " to missing column ");
                push_debug_str(&mut t, column);
            },
            PlateError::ComputeColumn { plate, column, node } => {
                push_str(&mut t, "plate ");
                push_decimal(&mut t, *plate as u64);
                push_str(&mut t, " cannot map dataset column ");
                push_debug_str(&mut t, column);
                push_str(&mut t, " to compute node ");
                push_decimal(&mut t, *node as u64);
            },
            PlateError::SelfContaining { plate } => {
                push_str(&mut t, "plate ");
                push_decimal(&mut t, *plate as u64);
                push_str(&mut t, " cannot contain itself");
            },
            PlateError::MissingChild { plate, child } => {
                push_str(&mut t, "plate ");
                push_decimal(&mut t, *plate as u64);
                push_str(&mut t, " contains missing child plate ");
                push_decimal(&mut t, *child as u64);
            },
            PlateError::MultipleParents { child, first, second } => {
                push_str(&mut t, "plate ");
                push_decimal(&mut t, *child as u64);
                push_str(&mut t, " has multiple parents: ");
                push_decimal(&mut t, *first as u64);
                push_str(&mut t, " and ");
                push_decimal(&mut t, *second as u64);
            },
            PlateError::Cycle { cycle } => {
                push_str(&mut t, "plate hierarchy contains a cycle: ");
                push_id_list(&mut t, cycle);
            },
            PlateError::NoScope { node } => {
                push_str(&mut t, "node ");
                push_decimal(&mut t, *node as u64);
                push_str(&mut t, " has no scope after plate normalization");
            },
            PlateError::MissingProducer { consumer, producer } => {
                push_str(&mut t, "node ");
                push_decimal(&mut t, *consumer as u64);
                push_str(&mut t, " references missing node ");
                push_decimal(&mut t, *producer as u64);
            },
            PlateError::InvalidDependency { producer, producer_path, consumer, consumer_path } => {
                push_str(&mut t, "invalid plate dependency from node ");
                push_decimal(&mut t, *producer as u64);
                push_str(&mut t, " in scope ");
                push_scope(&mut t, producer_path);
                push_str(&mut t, " to node ");
                push_decimal(&mut t, *consumer as u64);
                push_str(&mut t, " in scope ");
                push_scope(&mut t, consumer_path);
            },
        }
        t
    }
}

/// Appends `root` for the empty path and the bracketed plate ids otherwise.
fn push_scope(out: &mut String, path: &Vec<u32>)
    ensures
        final(out)@ == old(out)@ + scope_text(path@),
{
    if path.len() == 0 {
        push_str(out, "root");
        proof { reveal_strlit("root"); }
    } else {
        push_id_list(out, path);
    }
}

/// A plate path written as `root` when empty, else as the bracketed plate ids.
pub fn format_scope(path: &Vec<u32>) -> (text: String)
    ensures
        text@ == scope_text(path@),
{
    let mut text = String::new();
    push_scope(&mut text, path);
    text
}

} // verus!
