//! Validation of plate containment and of dependencies between plate scopes.
use crate::cycles::{acyclic, find_cycle, has_edge, is_cycle, least_on_cycles, single_parent, succ_view};
use crate::graph_ir::{DataColumn, GraphIR, NodeIR, PlateIR};
use crate::plate_errors::PlateError;
use crate::util::{contains_id, sorted_keys, strictly_increasing};
use std::collections::{HashMap, HashSet};
use vstd::prelude::*;

verus! {

broadcast use {vstd::std_specs::hash::group_hash_axioms, vstd::seq_lib::group_seq_properties};

/// The dataset has a column named `name`.
pub open spec fn has_column(data: Seq<DataColumn>, name: Seq<char>) -> bool {
    exists|i: int| 0 <= i < data.len() && #[trigger] data[i].name@ == name
}

/// `v` occurs at two positions of `s`.
pub open spec fn repeated_id(s: Seq<u32>, v: u32) -> bool {
    exists|i: int, j: int| 0 <= i < j < s.len() && #[trigger] s[i] == v && #[trigger] s[j] == v
}

/// Two columns of the dataset are named `name`.
pub open spec fn repeated_name(data: Seq<DataColumn>, name: Seq<char>) -> bool {
    exists|i: int, j: int| 0 <= i < j < data.len() && #[trigger] data[i].name@ == name && #[trigger] data[j].name@ == name
}

/// No two columns of the dataset share a name.
pub open spec fn columns_distinct(data: Seq<DataColumn>) -> bool {
    forall|i: int, j: int| 0 <= i < j < data.len() ==> (#[trigger] data[i]).name@ != (#[trigger] data[j]).name@
}

/// The local rules for one plate: its stored id matches its key, it has a dataset
/// whose columns have distinct names,
/// its member lists are free of repetition and refer to existing nodes and other
/// existing plates, and each mapping binds a direct, non-compute member to an
/// existing column.
pub open spec fn plate_entry_ok(nodes: Map<u32, NodeIR>, plates: Map<u32, PlateIR>, pid: u32) -> bool {
    let p = plates[pid];
    &&& p.id == pid
    &&& p.data@.len() > 0
    &&& columns_distinct(p.data@)
    &&& p.nodes@.no_duplicates()
    &&& p.plates@.no_duplicates()
    &&& forall|i: int| 0 <= i < p.nodes@.len() ==> nodes.contains_key(#[trigger] p.nodes@[i])
    &&& forall|n: u32| #[trigger] p.mapping@.contains_key(n) ==> {
        &&& p.nodes@.contains(n)
        &&& has_column(p.data@, p.mapping@[n]@)
        &&& !(nodes[n] is Compute)
    }
    &&& forall|i: int| 0 <= i < p.plates@.len() ==> #[trigger] p.plates@[i] != pid && plates.contains_key(p.plates@[i])
}

/// Plate `p` lists node `n` as a direct member.
pub open spec fn owns(plates: Map<u32, PlateIR>, p: u32, n: u32) -> bool {
    plates.contains_key(p) && plates[p].nodes@.contains(n)
}

/// Plate `p` lists plate `c` as a direct child.
pub open spec fn parent_of(plates: Map<u32, PlateIR>, p: u32, c: u32) -> bool {
    plates.contains_key(p) && plates[p].plates@.contains(c)
}

/// Each plate mapped to its direct child plates.
pub open spec fn child_graph(plates: Map<u32, PlateIR>) -> Map<u32, Seq<u32>> {
    plates.map_values(|p: PlateIR| p.plates@)
}

/// Every plate satisfies its local rules, no node has two owning plates, no plate
/// has two parents, and the plate hierarchy has no cycle.
pub open spec fn plates_well_formed(g: GraphIR) -> bool {
    &&& forall|pid: u32| #[trigger] g.plates@.contains_key(pid) ==> plate_entry_ok(g.nodes@, g.plates@, pid)
    &&& forall|a: u32, b: u32, n: u32| #[trigger] owns(g.plates@, a, n) && #[trigger] owns(g.plates@, b, n) ==> a == b
    &&& forall|a: u32, b: u32, c: u32| #[trigger] parent_of(g.plates@, a, c) && #[trigger] parent_of(g.plates@, b, c) ==> a == b
    &&& acyclic(child_graph(g.plates@))
}

/// What the error reports actually holds of the graph.
pub open spec fn plate_violation(g: GraphIR, e: PlateError) -> bool {
    let nodes = g.nodes@;
    let plates = g.plates@;
    match e {
        PlateError::MismatchedId { key, stored } => plates.contains_key(key) && plates[key].id == stored && stored != key,
        PlateError::NoDataset { plate } => plates.contains_key(plate) && plates[plate].data@.len() == 0,
        PlateError::DuplicateColumn { plate, column } => plates.contains_key(plate)
            && repeated_name(plates[plate].data@, column@),
        PlateError::DuplicateNode { plate, node } => plates.contains_key(plate) && repeated_id(plates[plate].nodes@, node),
        PlateError::DuplicateChild { plate, child } => plates.contains_key(plate) && repeated_id(plates[plate].plates@, child),
        PlateError::MissingNode { plate, node } => owns(plates, plate, node) && !nodes.contains_key(node),
        PlateError::MultipleOwners { node, first, second } => owns(plates, first, node) && owns(plates, second, node) && first < second,
        PlateError::UnownedMapping { plate, column, node } => plates.contains_key(plate)
            && plates[plate].mapping@.contains_key(node) && plates[plate].mapping@[node]@ == column@
            && !plates[plate].nodes@.contains(node),
        PlateError::MissingColumn { plate, node, column } => plates.contains_key(plate)
            && plates[plate].mapping@.contains_key(node) && plates[plate].mapping@[node]@ == column@
            && !has_column(plates[plate].data@, column@),
        PlateError::ComputeColumn { plate, column, node } => plates.contains_key(plate)
            && plates[plate].mapping@.contains_key(node) && plates[plate].mapping@[node]@ == column@
            && nodes.contains_key(node) && nodes[node] is Compute,
        PlateError::SelfContaining { plate } => parent_of(plates, plate, plate),
        PlateError::MissingChild { plate, child } => parent_of(plates, plate, child) && !plates.contains_key(child),
        PlateError::MultipleParents { child, first, second } => parent_of(plates, first, child)
            && parent_of(plates, second, child) && first < second,
        PlateError::Cycle { cycle } => cycle@.len() > 0 && is_cycle(child_graph(plates), cycle@.drop_last())
            && cycle@.drop_last().no_duplicates() && cycle@.last() == cycle@[0]
            && least_on_cycles(child_graph(plates), cycle@[0]),
        _ => false,
    }
}

/// Some plate with a smaller id lists node `n`.
pub open spec fn owned_before(plates: Map<u32, PlateIR>, pid: u32, n: u32) -> bool {
    exists|q: u32| q < pid && #[trigger] owns(plates, q, n)
}

/// Some plate with a smaller id lists plate `c` as a child.
pub open spec fn parented_before(plates: Map<u32, PlateIR>, pid: u32, c: u32) -> bool {
    exists|q: u32| q < pid && #[trigger] parent_of(plates, q, c)
}

/// Entry `i` of plate `pid`'s node list is a missing node, or one that a plate
/// with a smaller id already lists.
pub open spec fn node_fails(g: GraphIR, pid: u32, i: int) -> bool {
    let n = g.plates@[pid].nodes@[i];
    !g.nodes@.contains_key(n) || owned_before(g.plates@, pid, n)
}

/// Plate `pid` maps node `n` although the node is not its direct member, the
/// column is missing, or the node is a compute node.
pub open spec fn mapping_fails(g: GraphIR, pid: u32, n: u32) -> bool {
    let p = g.plates@[pid];
    !p.nodes@.contains(n) || !has_column(p.data@, p.mapping@[n]@) || g.nodes@[n] is Compute
}

/// Entry `i` of plate `pid`'s child list is the plate itself, a missing plate, or
/// one that a plate with a smaller id already lists.
pub open spec fn child_fails(g: GraphIR, pid: u32, i: int) -> bool {
    let c = g.plates@[pid].plates@[i];
    c == pid || !g.plates@.contains_key(c) || parented_before(g.plates@, pid, c)
}

/// `j` is the first position of `s` whose value occurs before it.
pub open spec fn first_repeat_at(s: Seq<u32>, j: int) -> bool {
    0 <= j < s.len() && s.take(j).contains(s[j]) && s.take(j).no_duplicates()
}

/// `k` is the first column whose name an earlier column has.
pub open spec fn first_column_repeat_at(data: Seq<DataColumn>, k: int) -> bool {
    0 <= k < data.len() && columns_distinct(data.take(k)) && exists|i: int| 0 <= i < k && #[trigger] data[i].name@ == data[k].name@
}

/// Plate `pid` passes every rule checked on it, given the plates with smaller ids.
pub open spec fn plate_passes(g: GraphIR, pid: u32) -> bool {
    &&& plate_entry_ok(g.nodes@, g.plates@, pid)
    &&& forall|i: int| 0 <= i < g.plates@[pid].nodes@.len() ==> !#[trigger] node_fails(g, pid, i)
    &&& forall|i: int| 0 <= i < g.plates@[pid].plates@.len() ==> !#[trigger] child_fails(g, pid, i)
}

/// `e` is what is first found wrong with plate `pid`, the rules taken in the
/// order they are checked: the stored id, a dataset, distinct column names,
/// repeated nodes, repeated children, then each listed node in order, each
/// mapping in increasing node order and each child in order.
pub open spec fn first_plate_error(g: GraphIR, pid: u32, e: PlateError) -> bool {
    let p = g.plates@[pid];
    if p.id != pid {
        e == PlateError::MismatchedId { key: pid, stored: p.id }
    } else if p.data@.len() == 0 {
        e == PlateError::NoDataset { plate: pid }
    } else if !columns_distinct(p.data@) {
        exists|k: int| #[trigger] first_column_repeat_at(p.data@, k)
            && e == PlateError::DuplicateColumn { plate: pid, column: p.data@[k].name }
    } else if !p.nodes@.no_duplicates() {
        exists|j: int| #[trigger] first_repeat_at(p.nodes@, j) && e == PlateError::DuplicateNode { plate: pid, node: p.nodes@[j] }
    } else if !p.plates@.no_duplicates() {
        exists|j: int| #[trigger] first_repeat_at(p.plates@, j) && e == PlateError::DuplicateChild { plate: pid, child: p.plates@[j] }
    } else if exists|i: int| 0 <= i < p.nodes@.len() && #[trigger] node_fails(g, pid, i) {
        nodes_error(g, pid, e)
    } else if exists|n: u32| p.mapping@.contains_key(n) && #[trigger] mapping_fails(g, pid, n) {
        mappings_error(g, pid, e)
    } else {
        children_error(g, pid, e)
    }
}

/// `e` reports node list entry `i` of plate `pid`.
pub open spec fn node_error_at(g: GraphIR, pid: u32, i: int, e: PlateError) -> bool {
    let n = g.plates@[pid].nodes@[i];
    if !g.nodes@.contains_key(n) {
        e == PlateError::MissingNode { plate: pid, node: n }
    } else {
        e matches PlateError::MultipleOwners { node, first, second }
            && node == n && second == pid && first < pid && owns(g.plates@, first, n)
    }
}

/// `e` reports the first failing entry of plate `pid`'s node list.
pub open spec fn nodes_error(g: GraphIR, pid: u32, e: PlateError) -> bool {
    exists|i: int| 0 <= i < g.plates@[pid].nodes@.len() && #[trigger] node_fails(g, pid, i)
        && (forall|k: int| 0 <= k < i ==> !#[trigger] node_fails(g, pid, k)) && node_error_at(g, pid, i, e)
}

/// `e` reports plate `pid`'s mapping of node `n`.
pub open spec fn mapping_error_at(g: GraphIR, pid: u32, n: u32, e: PlateError) -> bool {
    let p = g.plates@[pid];
    if !p.nodes@.contains(n) {
        e == PlateError::UnownedMapping { plate: pid, column: p.mapping@[n], node: n }
    } else if !has_column(p.data@, p.mapping@[n]@) {
        e == PlateError::MissingColumn { plate: pid, node: n, column: p.mapping@[n] }
    } else {
        e == PlateError::ComputeColumn { plate: pid, column: p.mapping@[n], node: n }
    }
}

/// `e` reports the failing mapping of plate `pid` with the smallest node id.
pub open spec fn mappings_error(g: GraphIR, pid: u32, e: PlateError) -> bool {
    exists|n: u32| g.plates@[pid].mapping@.contains_key(n) && #[trigger] mapping_fails(g, pid, n)
        && (forall|m: u32| g.plates@[pid].mapping@.contains_key(m) && m < n ==> !#[trigger] mapping_fails(g, pid, m))
        && mapping_error_at(g, pid, n, e)
}

/// `e` reports child list entry `i` of plate `pid`.
pub open spec fn child_error_at(g: GraphIR, pid: u32, i: int, e: PlateError) -> bool {
    let c = g.plates@[pid].plates@[i];
    if c == pid {
        e == PlateError::SelfContaining { plate: pid }
    } else if !g.plates@.contains_key(c) {
        e == PlateError::MissingChild { plate: pid, child: c }
    } else {
        e matches PlateError::MultipleParents { child, first, second }
            && child == c && second == pid && first < pid && parent_of(g.plates@, first, c)
    }
}

/// `e` reports the first failing entry of plate `pid`'s child list.
pub open spec fn children_error(g: GraphIR, pid: u32, e: PlateError) -> bool {
    exists|i: int| 0 <= i < g.plates@[pid].plates@.len() && #[trigger] child_fails(g, pid, i)
        && (forall|k: int| 0 <= k < i ==> !#[trigger] child_fails(g, pid, k)) && child_error_at(g, pid, i, e)
}

/// `e` is the first plate error found: that of the plate with the smallest id
/// that fails a rule, or, when every plate passes, a cycle of the hierarchy.
pub open spec fn first_structure_error(g: GraphIR, e: PlateError) -> bool {
    ||| exists|pid: u32| g.plates@.contains_key(pid) && #[trigger] first_plate_error(g, pid, e)
        && forall|q: u32| g.plates@.contains_key(q) && q < pid ==> #[trigger] plate_passes(g, q)
    ||| (forall|q: u32| g.plates@.contains_key(q) ==> #[trigger] plate_passes(g, q)) && e is Cycle
}

/// Whether `values` is free of repetition; the error is the first value seen
/// again: the value at the least position whose value occurs before it.
pub fn ensure_unique(values: &Vec<u32>) -> (result: Result<(), u32>)
    ensures
        result is Ok <==> values@.no_duplicates(),
        result matches Err(v) ==> exists|i: int, j: int| 0 <= i < j < values@.len() && values@[i] == v && values@[j] == v,
        result matches Err(v) ==> exists|j: int| 0 <= j < values@.len() && #[trigger] values@[j] == v
            && values@.take(j).contains(v) && values@.take(j).no_duplicates(),
{
    let mut seen: HashSet<u32> = HashSet::new();
    let mut i: usize = 0;
    while i < values.len()
        invariant
            i <= values@.len(),
            seen@ == values@.take(i as int).to_set(),
            values@.take(i as int).no_duplicates(),
        decreases values@.len() - i,
    {
        let v = values[i];
        if seen.contains(&v) {
            proof {
                let j = choose|j: int| 0 <= j < i && values@.take(i as int)[j] == v;
                assert(values@[j] == v);
                assert(values@[i as int] == v);
            }
            return Err(v);
        }
        seen.insert(v);
        proof {
            assert(values@.take(i + 1) =~= values@.take(i as int).push(v));
        }
        i = i + 1;
    }
    assert(values@.take(values@.len() as int) =~= values@);
    Ok(())
}

/// The position of the first column whose name an earlier column has, if any.
pub(crate) fn repeated_column(data: &Vec<DataColumn>) -> (found: Option<usize>)
    ensures
        found is None <==> columns_distinct(data@),
        found matches Some(k) ==> k < data@.len() && columns_distinct(data@.take(k as int))
            && exists|i: int| 0 <= i < k && data@[i].name@ == data@[k as int].name@,
{
    let mut k: usize = 0;
    while k < data.len()
        invariant
            k <= data@.len(),
            columns_distinct(data@.take(k as int)),
        decreases data@.len() - k,
    {
        let mut i: usize = 0;
        while i < k
            invariant
                i <= k < data@.len(),
                columns_distinct(data@.take(k as int)),
                forall|q: int| 0 <= q < i ==> data@[q].name@ != data@[k as int].name@,
            decreases k - i,
        {
            if data[i].name == data[k].name {
                return Some(k);
            }
            i = i + 1;
        }
        proof {
            assert forall|a: int, b: int| 0 <= a < b < k + 1 implies (#[trigger] data@.take(k + 1)[a]).name@ != (#[trigger] data@.take(k + 1)[b]).name@ by {
                if b < k {
                    assert(data@.take(k as int)[a] == data@[a] && data@.take(k as int)[b] == data@[b]);
                }
            }
        }
        k = k + 1;
    }
    assert(data@.take(data@.len() as int) =~= data@);
    None
}

/// The position of the first column named `name`.
pub(crate) fn find_column(data: &Vec<DataColumn>, name: &String) -> (found: Option<usize>)
    ensures
        found is None <==> !has_column(data@, name@),
        found matches Some(k) ==> k < data@.len() && data@[k as int].name@ == name@
            && forall|j: int| 0 <= j < k ==> data@[j].name@ != name@,
{
    let mut i: usize = 0;
    while i < data.len()
        invariant
            i <= data@.len(),
            forall|k: int| 0 <= k < i ==> data@[k].name@ != name@,
        decreases data@.len() - i,
    {
        if data[i].name == *name {
            return Some(i);
        }
        i = i + 1;
    }
    None
}


/// `owners` maps exactly the nodes owned by plates of `done` to their owner.
pub open spec fn owner_map_ok(plates: Map<u32, PlateIR>, done: Set<u32>, owners: Map<u32, u32>) -> bool {
    &&& forall|n: u32| #[trigger] owners.contains_key(n) ==> done.contains(owners[n]) && owns(plates, owners[n], n)
    &&& forall|q: u32, n: u32| done.contains(q) && #[trigger] owns(plates, q, n) ==> owners.contains_key(n) && owners[n] == q
}

/// `parents` maps exactly the children of plates of `done` to their parent.
pub open spec fn parent_map_ok(plates: Map<u32, PlateIR>, done: Set<u32>, parents: Map<u32, u32>) -> bool {
    &&& forall|c: u32| #[trigger] parents.contains_key(c) ==> done.contains(parents[c]) && parent_of(plates, parents[c], c)
    &&& forall|q: u32, c: u32| done.contains(q) && #[trigger] parent_of(plates, q, c) ==> parents.contains_key(c) && parents[c] == q
}

/// Plates checked in increasing id order: those before position `i` are exactly
/// the plates with smaller ids than the one at `i`.
proof fn lemma_earlier_plates_pass(g: GraphIR, ids: Seq<u32>, i: int)
    requires
        0 <= i < ids.len(),
        ids.to_set() == g.plates@.dom(),
        strictly_increasing(ids),
        forall|k: int| 0 <= k < i ==> plate_passes(g, #[trigger] ids[k]),
    ensures
        forall|q: u32| g.plates@.contains_key(q) && q < ids[i] ==> #[trigger] plate_passes(g, q),
        forall|q: u32| #[trigger] ids.take(i).to_set().contains(q) <==> g.plates@.contains_key(q) && q < ids[i],
{
    assert forall|q: u32| g.plates@.contains_key(q) && q < ids[i] implies #[trigger] plate_passes(g, q) by {
        assert(ids.to_set().contains(q));
        let k = choose|k: int| 0 <= k < ids.len() && ids[k] == q;
        if k >= i {
            if k > i {
                assert(ids[i] < ids[k]);
            }
        }
        assert(plate_passes(g, ids[k]));
    }
    assert forall|q: u32| #[trigger] ids.take(i).to_set().contains(q) <==> g.plates@.contains_key(q) && q < ids[i] by {
        if ids.take(i).to_set().contains(q) {
            let k = choose|k: int| 0 <= k < i && ids.take(i)[k] == q;
            assert(ids[k] == q);
            assert(ids.to_set().contains(q));
        }
        if g.plates@.contains_key(q) && q < ids[i] {
            assert(ids.to_set().contains(q));
            let k = choose|k: int| 0 <= k < ids.len() && ids[k] == q;
            if k >= i {
                if k > i {
                    assert(ids[i] < ids[k]);
                }
            }
            assert(ids.take(i)[k] == q);
        }
    }
}

/// When every listed plate passed, every plate of the graph passed.
proof fn lemma_all_plates_pass(g: GraphIR, ids: Seq<u32>)
    requires
        ids.to_set() == g.plates@.dom(),
        forall|k: int| 0 <= k < ids.len() ==> plate_passes(g, #[trigger] ids[k]),
    ensures
        forall|q: u32| g.plates@.contains_key(q) ==> #[trigger] plate_passes(g, q),
{
    assert forall|q: u32| g.plates@.contains_key(q) implies #[trigger] plate_passes(g, q) by {
        assert(ids.to_set().contains(q));
        let k = choose|k: int| 0 <= k < ids.len() && ids[k] == q;
        assert(plate_passes(g, ids[k]));
    }
}

impl GraphIR {
    /// The first rules of plate `pid`: its stored id, a dataset with distinct
    /// column names, and member and child lists without repetition.
    #[verifier::rlimit(40)]
    fn check_plate_lists(&self, pid: u32) -> (result: Result<(), PlateError>)
        requires
            self.plates@.contains_key(pid),
        ensures
            result is Ok ==> {
                let p = self.plates@[pid];
                &&& p.id == pid
                &&& p.data@.len() > 0
                &&& columns_distinct(p.data@)
                &&& p.nodes@.no_duplicates()
                &&& p.plates@.no_duplicates()
            },
            result matches Err(e) ==> plate_violation(*self, e) && first_plate_error(*self, pid, e),
    {
        let plate = self.plates.get(&pid).unwrap();
        assert(*plate == self.plates@[pid]);
        if plate.id != pid {
            return Err(PlateError::MismatchedId { key: pid, stored: plate.id });
        }
        if plate.data.len() == 0 {
            return Err(PlateError::NoDataset { plate: pid });
        }
        match repeated_column(&plate.data) {
            Some(k) => {
                let column = plate.data[k].name.clone();
                proof {
                    let i = choose|i: int| 0 <= i < k && plate.data@[i].name@ == plate.data@[k as int].name@;
                    let d = self.plates@[pid].data@;
                    assert(d == plate.data@);
                    assert(d[i].name@ == column@ && d[k as int].name@ == column@);
                    assert(repeated_name(d, column@));
                    assert(first_column_repeat_at(d, k as int));
                }
                return Err(PlateError::DuplicateColumn { plate: pid, column });
            },
            None => {},
        }
        match ensure_unique(&plate.nodes) {
            Ok(()) => {},
            Err(v) => {
                proof {
                    let (a, b) = choose|a: int, b: int| 0 <= a < b < plate.nodes@.len() && plate.nodes@[a] == v && plate.nodes@[b] == v;
                    assert(repeated_id(self.plates@[pid].nodes@, v));
                    let j = choose|j: int| 0 <= j < plate.nodes@.len() && #[trigger] plate.nodes@[j] == v
                        && plate.nodes@.take(j).contains(v) && plate.nodes@.take(j).no_duplicates();
                    assert(first_repeat_at(self.plates@[pid].nodes@, j));
                }
                return Err(PlateError::DuplicateNode { plate: pid, node: v });
            },
        }
        match ensure_unique(&plate.plates) {
            Ok(()) => {},
            Err(v) => {
                proof {
                    let (a, b) = choose|a: int, b: int| 0 <= a < b < plate.plates@.len() && plate.plates@[a] == v && plate.plates@[b] == v;
                    assert(repeated_id(self.plates@[pid].plates@, v));
                    let j = choose|j: int| 0 <= j < plate.plates@.len() && #[trigger] plate.plates@[j] == v
                        && plate.plates@.take(j).contains(v) && plate.plates@.take(j).no_duplicates();
                    assert(first_repeat_at(self.plates@[pid].plates@, j));
                }
                return Err(PlateError::DuplicateChild { plate: pid, child: v });
            },
        }
        Ok(())
    }

    /// Checks the node list of plate `pid`, in order, and records the plate as the
    /// owner of each node.
    fn check_plate_nodes(&self, pid: u32, owners: &mut HashMap<u32, u32>, Ghost(done): Ghost<Set<u32>>)
        -> (result: Result<(), PlateError>)
        requires
            self.plates@.contains_key(pid),
            forall|q: u32| #[trigger] done.contains(q) <==> self.plates@.contains_key(q) && q < pid,
            self.plates@[pid].nodes@.no_duplicates(),
            owner_map_ok(self.plates@, done, old(owners)@),
        ensures
            result is Ok ==> owner_map_ok(self.plates@, done.insert(pid), final(owners)@)
                && forall|i: int| 0 <= i < self.plates@[pid].nodes@.len() ==> !#[trigger] node_fails(*self, pid, i),
            result matches Err(e) ==> plate_violation(*self, e) && nodes_error(*self, pid, e),
    {
        let plate = self.plates.get(&pid).unwrap();
        let ghost owners0 = owners@;
        let mut i: usize = 0;
        while i < plate.nodes.len()
            invariant
                self.plates@.contains_key(pid),
                *plate == self.plates@[pid],
                forall|q: u32| #[trigger] done.contains(q) <==> self.plates@.contains_key(q) && q < pid,
                plate.nodes@.no_duplicates(),
                i <= plate.nodes@.len(),
                owner_map_ok(self.plates@, done, owners0),
                forall|k: int| 0 <= k < i ==> !#[trigger] node_fails(*self, pid, k),
                forall|n: u32| #[trigger] owners@.contains_key(n) ==> (done.contains(owners@[n]) || owners@[n] == pid) && owns(self.plates@, owners@[n], n),
                forall|q: u32, n: u32| done.contains(q) && #[trigger] owns(self.plates@, q, n) ==> owners@.contains_key(n) && owners@[n] == q,
                forall|k: int| 0 <= k < i ==> owners@.contains_key(#[trigger] plate.nodes@[k]) && owners@[plate.nodes@[k]] == pid,
                forall|n: u32| #[trigger] owners@.contains_key(n) && owners@[n] == pid ==> plate.nodes@.take(i as int).contains(n),
            decreases plate.nodes@.len() - i,
        {
            let node = plate.nodes[i];
            if !self.nodes.contains_key(&node) {
                proof {
                    assert(node_fails(*self, pid, i as int));
                    assert(node_error_at(*self, pid, i as int, PlateError::MissingNode { plate: pid, node }));
                    assert(owns(self.plates@, pid, node));
                }
                return Err(PlateError::MissingNode { plate: pid, node });
            }
            let ghost before = owners@;
            match owners.insert(node, pid) {
                Some(previous) => {
                    proof {
                        if previous == pid {
                            assert(plate.nodes@.take(i as int).contains(node));
                            let k = choose|k: int| 0 <= k < i && plate.nodes@.take(i as int)[k] == node;
                            assert(plate.nodes@[k] == plate.nodes@[i as int]);
                        }
                        assert(before.contains_key(node) && before[node] == previous);
                        assert(done.contains(previous));
                        assert(owns(self.plates@, previous, node));
                        assert(owns(self.plates@, pid, node));
                        assert(owned_before(self.plates@, pid, node));
                        assert(node_fails(*self, pid, i as int));
                        assert(node_error_at(*self, pid, i as int, PlateError::MultipleOwners { node, first: previous, second: pid }));
                    }
                    return Err(PlateError::MultipleOwners { node, first: previous, second: pid });
                },
                None => {
                    proof {
                        if owned_before(self.plates@, pid, node) {
                            let q = choose|q: u32| q < pid && #[trigger] owns(self.plates@, q, node);
                            assert(done.contains(q));
                        }
                        assert(!node_fails(*self, pid, i as int));
                    }
                },
            }
            proof {
                assert(plate.nodes@.take(i + 1) =~= plate.nodes@.take(i as int).push(node));
                assert forall|k: int| 0 <= k < i + 1 implies owners@.contains_key(#[trigger] plate.nodes@[k]) && owners@[plate.nodes@[k]] == pid by {
                    if k < i {
                        assert(plate.nodes@[k] != node) by {
                            assert(plate.nodes@[k] != plate.nodes@[i as int]);
                        }
                    }
                }
            }
            i = i + 1;
        }
        proof {
            assert(plate.nodes@.take(plate.nodes@.len() as int) =~= plate.nodes@);
            assert forall|q: u32, n: u32| done.insert(pid).contains(q) && #[trigger] owns(self.plates@, q, n)
                implies owners@.contains_key(n) && owners@[n] == q by {
                if q == pid {
                    let k = choose|k: int| 0 <= k < plate.nodes@.len() && plate.nodes@[k] == n;
                    assert(owners@.contains_key(plate.nodes@[k]));
                }
            }
        }
        Ok(())
    }

    /// Checks the mappings of plate `pid` in increasing node order.
    fn check_plate_mappings(&self, pid: u32) -> (result: Result<(), PlateError>)
        requires
            self.plates@.contains_key(pid),
            forall|k: int| 0 <= k < self.plates@[pid].nodes@.len() ==> self.nodes@.contains_key(#[trigger] self.plates@[pid].nodes@[k]),
        ensures
            result is Ok ==> forall|n: u32| #[trigger] self.plates@[pid].mapping@.contains_key(n) ==> !mapping_fails(*self, pid, n),
            result matches Err(e) ==> plate_violation(*self, e) && mappings_error(*self, pid, e),
    {
        let plate = self.plates.get(&pid).unwrap();
        let keys = sorted_keys(&plate.mapping);
        let mut j: usize = 0;
        while j < keys.len()
            invariant
                self.plates@.contains_key(pid),
                *plate == self.plates@[pid],
                j <= keys@.len(),
                keys@.to_set() == plate.mapping@.dom(),
                strictly_increasing(keys@),
                forall|k: int| 0 <= k < plate.nodes@.len() ==> self.nodes@.contains_key(#[trigger] plate.nodes@[k]),
                forall|k: int| 0 <= k < j ==> !mapping_fails(*self, pid, #[trigger] keys@[k]),
            decreases keys@.len() - j,
        {
            let node = keys[j];
            assert(keys@.to_set().contains(node));
            let column = plate.mapping.get(&node).unwrap();
            proof {
                assert forall|m: u32| plate.mapping@.contains_key(m) && m < node implies !#[trigger] mapping_fails(*self, pid, m) by {
                    assert(keys@.to_set().contains(m));
                    let k = choose|k: int| 0 <= k < keys@.len() && keys@[k] == m;
                    if k >= j {
                        if k > j {
                            assert(keys@[j as int] < keys@[k]);
                        }
                    }
                    assert(!mapping_fails(*self, pid, keys@[k]));
                }
            }
            if !contains_id(&plate.nodes, node) {
                let e = PlateError::UnownedMapping { plate: pid, column: column.clone(), node };
                proof {
                    assert(mapping_fails(*self, pid, node));
                    assert(mapping_error_at(*self, pid, node, e));
                }
                return Err(e);
            }
            if find_column(&plate.data, column).is_none() {
                let e = PlateError::MissingColumn { plate: pid, node, column: column.clone() };
                proof {
                    assert(mapping_fails(*self, pid, node));
                    assert(mapping_error_at(*self, pid, node, e));
                }
                return Err(e);
            }
            assert(self.nodes@.contains_key(node)) by {
                let k = choose|k: int| 0 <= k < plate.nodes@.len() && plate.nodes@[k] == node;
                assert(self.nodes@.contains_key(plate.nodes@[k]));
            }
            let is_compute = match self.nodes.get(&node) {
                Some(NodeIR::Compute { .. }) => true,
                _ => false,
            };
            if is_compute {
                let e = PlateError::ComputeColumn { plate: pid, column: column.clone(), node };
                proof {
                    assert(mapping_fails(*self, pid, node));
                    assert(mapping_error_at(*self, pid, node, e));
                }
                return Err(e);
            }
            assert(!mapping_fails(*self, pid, keys@[j as int]));
            j = j + 1;
        }
        proof {
            assert forall|n: u32| #[trigger] plate.mapping@.contains_key(n) implies !mapping_fails(*self, pid, n) by {
                assert(keys@.to_set().contains(n));
                let k = choose|k: int| 0 <= k < keys@.len() && keys@[k] == n;
                assert(!mapping_fails(*self, pid, keys@[k]));
            }
        }
        Ok(())
    }

    /// Checks the child list of plate `pid`, in order, and records the plate as
    /// the parent of each child.
    fn check_plate_children(&self, pid: u32, parents: &mut HashMap<u32, u32>, Ghost(done): Ghost<Set<u32>>)
        -> (result: Result<(), PlateError>)
        requires
            self.plates@.contains_key(pid),
            forall|q: u32| #[trigger] done.contains(q) <==> self.plates@.contains_key(q) && q < pid,
            self.plates@[pid].plates@.no_duplicates(),
            parent_map_ok(self.plates@, done, old(parents)@),
        ensures
            result is Ok ==> parent_map_ok(self.plates@, done.insert(pid), final(parents)@)
                && forall|i: int| 0 <= i < self.plates@[pid].plates@.len() ==> !#[trigger] child_fails(*self, pid, i),
            result matches Err(e) ==> plate_violation(*self, e) && children_error(*self, pid, e),
    {
        let plate = self.plates.get(&pid).unwrap();
        let ghost parents0 = parents@;
        let mut c: usize = 0;
        while c < plate.plates.len()
            invariant
                self.plates@.contains_key(pid),
                *plate == self.plates@[pid],
                forall|q: u32| #[trigger] done.contains(q) <==> self.plates@.contains_key(q) && q < pid,
                plate.plates@.no_duplicates(),
                c <= plate.plates@.len(),
                parent_map_ok(self.plates@, done, parents0),
                forall|k: int| 0 <= k < c ==> !#[trigger] child_fails(*self, pid, k),
                forall|x: u32| #[trigger] parents@.contains_key(x) ==> (done.contains(parents@[x]) || parents@[x] == pid) && parent_of(self.plates@, parents@[x], x),
                forall|q: u32, x: u32| done.contains(q) && #[trigger] parent_of(self.plates@, q, x) ==> parents@.contains_key(x) && parents@[x] == q,
                forall|k: int| 0 <= k < c ==> parents@.contains_key(#[trigger] plate.plates@[k]) && parents@[plate.plates@[k]] == pid,
                forall|x: u32| #[trigger] parents@.contains_key(x) && parents@[x] == pid ==> plate.plates@.take(c as int).contains(x),
            decreases plate.plates@.len() - c,
        {
            let child = plate.plates[c];
            if child == pid {
                proof {
                    assert(child_fails(*self, pid, c as int));
                    assert(child_error_at(*self, pid, c as int, PlateError::SelfContaining { plate: pid }));
                }
                return Err(PlateError::SelfContaining { plate: pid });
            }
            if !self.plates.contains_key(&child) {
                proof {
                    assert(child_fails(*self, pid, c as int));
                    assert(child_error_at(*self, pid, c as int, PlateError::MissingChild { plate: pid, child }));
                }
                return Err(PlateError::MissingChild { plate: pid, child });
            }
            let ghost before = parents@;
            match parents.insert(child, pid) {
                Some(previous) => {
                    proof {
                        if previous == pid {
                            assert(plate.plates@.take(c as int).contains(child));
                            let k = choose|k: int| 0 <= k < c && plate.plates@.take(c as int)[k] == child;
                            assert(plate.plates@[k] == plate.plates@[c as int]);
                        }
                        assert(before.contains_key(child) && before[child] == previous);
                        assert(done.contains(previous));
                        assert(parent_of(self.plates@, previous, child));
                        assert(parent_of(self.plates@, pid, child));
                        assert(parented_before(self.plates@, pid, child));
                        assert(child_fails(*self, pid, c as int));
                        assert(child_error_at(*self, pid, c as int, PlateError::MultipleParents { child, first: previous, second: pid }));
                    }
                    return Err(PlateError::MultipleParents { child, first: previous, second: pid });
                },
                None => {
                    proof {
                        if parented_before(self.plates@, pid, child) {
                            let q = choose|q: u32| q < pid && #[trigger] parent_of(self.plates@, q, child);
                            assert(done.contains(q));
                        }
                        assert(!child_fails(*self, pid, c as int));
                    }
                },
            }
            proof {
                assert(plate.plates@.take(c + 1) =~= plate.plates@.take(c as int).push(child));
                assert forall|k: int| 0 <= k < c + 1 implies parents@.contains_key(#[trigger] plate.plates@[k]) && parents@[plate.plates@[k]] == pid by {
                    if k < c {
                        assert(plate.plates@[k] != child) by {
                            assert(plate.plates@[k] != plate.plates@[c as int]);
                        }
                    }
                }
            }
            c = c + 1;
        }
        proof {
            assert(plate.plates@.take(plate.plates@.len() as int) =~= plate.plates@);
            assert forall|q: u32, x: u32| done.insert(pid).contains(q) && #[trigger] parent_of(self.plates@, q, x)
                implies parents@.contains_key(x) && parents@[x] == q by {
                if q == pid {
                    let k = choose|k: int| 0 <= k < plate.plates@.len() && plate.plates@[k] == x;
                    assert(parents@.contains_key(plate.plates@[k]));
                }
            }
        }
        Ok(())
    }

    /// Checks every rule of plate `pid`, in the order `first_plate_error`
    /// describes, and records its members and children. `done` holds the plates
    /// with smaller ids, all checked already.
    fn check_one_plate(
        &self,
        pid: u32,
        owners: &mut HashMap<u32, u32>,
        parents: &mut HashMap<u32, u32>,
        Ghost(done): Ghost<Set<u32>>,
    ) -> (result: Result<(), PlateError>)
        requires
            self.plates@.contains_key(pid),
            forall|q: u32| #[trigger] done.contains(q) <==> self.plates@.contains_key(q) && q < pid,
            owner_map_ok(self.plates@, done, old(owners)@),
            parent_map_ok(self.plates@, done, old(parents)@),
        ensures
            result is Ok ==> {
                &&& plate_passes(*self, pid)
                &&& owner_map_ok(self.plates@, done.insert(pid), final(owners)@)
                &&& parent_map_ok(self.plates@, done.insert(pid), final(parents)@)
            },
            result matches Err(e) ==> plate_violation(*self, e) && first_plate_error(*self, pid, e),
    {
        match self.check_plate_lists(pid) {
            Ok(()) => {},
            Err(e) => {
                return Err(e);
            },
        }
        match self.check_plate_nodes(pid, owners, Ghost(done)) {
            Ok(()) => {},
            Err(e) => {
                proof {
                    let i = choose|i: int| 0 <= i < self.plates@[pid].nodes@.len() && #[trigger] node_fails(*self, pid, i)
                        && (forall|k: int| 0 <= k < i ==> !#[trigger] node_fails(*self, pid, k)) && node_error_at(*self, pid, i, e);
                    assert(node_fails(*self, pid, i));
                }
                return Err(e);
            },
        }
        proof {
            assert forall|k: int| 0 <= k < self.plates@[pid].nodes@.len() implies self.nodes@.contains_key(#[trigger] self.plates@[pid].nodes@[k]) by {
                assert(!node_fails(*self, pid, k));
            }
        }
        match self.check_plate_mappings(pid) {
            Ok(()) => {},
            Err(e) => {
                proof {
                    let n = choose|n: u32| self.plates@[pid].mapping@.contains_key(n) && #[trigger] mapping_fails(*self, pid, n)
                        && (forall|m: u32| self.plates@[pid].mapping@.contains_key(m) && m < n ==> !#[trigger] mapping_fails(*self, pid, m))
                        && mapping_error_at(*self, pid, n, e);
                    assert(mapping_fails(*self, pid, n));
                }
                return Err(e);
            },
        }
        match self.check_plate_children(pid, parents, Ghost(done)) {
            Ok(()) => {},
            Err(e) => {
                return Err(e);
            },
        }
        proof {
            let p = self.plates@[pid];
            assert forall|n: u32| #[trigger] p.mapping@.contains_key(n) implies {
                &&& p.nodes@.contains(n)
                &&& has_column(p.data@, p.mapping@[n]@)
                &&& !(self.nodes@[n] is Compute)
            } by {
                assert(!mapping_fails(*self, pid, n));
            }
            assert forall|i: int| 0 <= i < p.plates@.len() implies #[trigger] p.plates@[i] != pid && self.plates@.contains_key(p.plates@[i]) by {
                assert(!child_fails(*self, pid, i));
            }
            assert(plate_entry_ok(self.nodes@, self.plates@, pid));
        }
        Ok(())
    }
}


/// A reported violation means the plates are not well formed.
pub proof fn lemma_violation_not_well_formed(g: GraphIR, e: PlateError)
    requires
        plate_violation(g, e),
    ensures
        !plates_well_formed(g),
{
    let nodes = g.nodes@;
    let plates = g.plates@;
    match e {
        PlateError::MismatchedId { key, stored } => {
            assert(!plate_entry_ok(nodes, plates, key));
        },
        PlateError::NoDataset { plate } => {
            assert(!plate_entry_ok(nodes, plates, plate));
        },
        PlateError::DuplicateColumn { plate, column } => {
            let (i, j) = choose|i: int, j: int| 0 <= i < j < plates[plate].data@.len() && #[trigger] plates[plate].data@[i].name@ == column@
                && #[trigger] plates[plate].data@[j].name@ == column@;
            assert(!columns_distinct(plates[plate].data@));
            assert(!plate_entry_ok(nodes, plates, plate));
        },
        PlateError::DuplicateNode { plate, node } => {
            let (i, j) = choose|i: int, j: int| 0 <= i < j < plates[plate].nodes@.len() && #[trigger] plates[plate].nodes@[i] == node
                && #[trigger] plates[plate].nodes@[j] == node;
            assert(!plates[plate].nodes@.no_duplicates());
            assert(!plate_entry_ok(nodes, plates, plate));
        },
        PlateError::DuplicateChild { plate, child } => {
            let (i, j) = choose|i: int, j: int| 0 <= i < j < plates[plate].plates@.len() && #[trigger] plates[plate].plates@[i] == child
                && #[trigger] plates[plate].plates@[j] == child;
            assert(!plates[plate].plates@.no_duplicates());
            assert(!plate_entry_ok(nodes, plates, plate));
        },
        PlateError::MissingNode { plate, node } => {
            let i = choose|i: int| 0 <= i < plates[plate].nodes@.len() && plates[plate].nodes@[i] == node;
            assert(!plate_entry_ok(nodes, plates, plate));
        },
        PlateError::MultipleOwners { node, first, second } => {
            assert(owns(plates, first, node) && owns(plates, second, node));
        },
        PlateError::UnownedMapping { plate, column, node } => {
            assert(plates[plate].mapping@.contains_key(node));
            assert(!plate_entry_ok(nodes, plates, plate));
        },
        PlateError::MissingColumn { plate, node, column } => {
            assert(plates[plate].mapping@.contains_key(node));
            assert(!plate_entry_ok(nodes, plates, plate));
        },
        PlateError::ComputeColumn { plate, column, node } => {
            assert(plates[plate].mapping@.contains_key(node));
            assert(!plate_entry_ok(nodes, plates, plate));
        },
        PlateError::SelfContaining { plate } => {
            let i = choose|i: int| 0 <= i < plates[plate].plates@.len() && plates[plate].plates@[i] == plate;
            assert(!plate_entry_ok(nodes, plates, plate));
        },
        PlateError::MissingChild { plate, child } => {
            let i = choose|i: int| 0 <= i < plates[plate].plates@.len() && plates[plate].plates@[i] == child;
            assert(!plate_entry_ok(nodes, plates, plate));
        },
        PlateError::MultipleParents { child, first, second } => {
            assert(parent_of(plates, first, child) && parent_of(plates, second, child));
        },
        PlateError::Cycle { cycle } => {
            crate::cycles::lemma_cycle_not_acyclic(child_graph(plates), cycle@.drop_last());
        },
        _ => {},
    }
}

/// Complete owner and parent maps witness single ownership and single parenthood.
proof fn lemma_maps_give_well_formed(g: GraphIR, owners: Map<u32, u32>, parents: Map<u32, u32>)
    requires
        forall|pid: u32| #[trigger] g.plates@.contains_key(pid) ==> plate_entry_ok(g.nodes@, g.plates@, pid),
        owner_map_ok(g.plates@, g.plates@.dom(), owners),
        parent_map_ok(g.plates@, g.plates@.dom(), parents),
        acyclic(child_graph(g.plates@)),
    ensures
        plates_well_formed(g),
{
    assert forall|a: u32, b: u32, n: u32| #[trigger] owns(g.plates@, a, n) && #[trigger] owns(g.plates@, b, n) implies a == b by {
        assert(g.plates@.dom().contains(a));
        assert(g.plates@.dom().contains(b));
    }
    assert forall|a: u32, b: u32, c: u32| #[trigger] parent_of(g.plates@, a, c) && #[trigger] parent_of(g.plates@, b, c) implies a == b by {
        assert(g.plates@.dom().contains(a));
        assert(g.plates@.dom().contains(b));
    }
}

/// Successor lists of the plate hierarchy: each plate id maps to its children.
fn child_adjacency(plates: &HashMap<u32, PlateIR>) -> (adj: HashMap<u32, Vec<u32>>)
    ensures
        succ_view(adj@) == child_graph(plates@),
{
    let ids = sorted_keys(plates);
    let mut adj: HashMap<u32, Vec<u32>> = HashMap::new();
    let mut i: usize = 0;
    while i < ids.len()
        invariant
            i <= ids@.len(),
            ids@.to_set() == plates@.dom(),
            adj@.dom() == ids@.take(i as int).to_set(),
            forall|k: u32| #[trigger] adj@.contains_key(k) ==> plates@.contains_key(k) && adj@[k]@ == plates@[k].plates@,
        decreases ids@.len() - i,
    {
        let id = ids[i];
        assert(ids@.to_set().contains(id));
        let plate = plates.get(&id).unwrap();
        adj.insert(id, crate::util::copy_ids(&plate.plates));
        proof {
            assert(ids@.take(i + 1) == ids@.take(i as int).push(id));
        }
        i = i + 1;
    }
    proof {
        assert(ids@.take(ids@.len() as int) == ids@);
        assert(succ_view(adj@) =~= child_graph(plates@));
    }
    adj
}

impl GraphIR {
    /// Checks every plate rule: local rules of each plate in increasing id order,
    /// single ownership and single parenthood, then the absence of plate cycles.
    /// On success returns the owning plate of each owned node and the parent of
    /// each child plate.
    #[verifier::rlimit(40)]
    pub fn check_plate_structure(&self) -> (result: Result<(HashMap<u32, u32>, HashMap<u32, u32>), PlateError>)
        ensures
            result is Ok <==> plates_well_formed(*self),
            result matches Err(e) ==> plate_violation(*self, e) && first_structure_error(*self, e),
            result matches Ok((owners, parents)) ==> {
                &&& owner_map_ok(self.plates@, self.plates@.dom(), owners@)
                &&& parent_map_ok(self.plates@, self.plates@.dom(), parents@)
            },
    {
        let ids = sorted_keys(&self.plates);
        let mut owners: HashMap<u32, u32> = HashMap::new();
        let mut parents: HashMap<u32, u32> = HashMap::new();
        let mut i: usize = 0;
        while i < ids.len()
            invariant
                i <= ids@.len(),
                ids@.to_set() == self.plates@.dom(),
                ids@.no_duplicates(),
                strictly_increasing(ids@),
                owner_map_ok(self.plates@, ids@.take(i as int).to_set(), owners@),
                parent_map_ok(self.plates@, ids@.take(i as int).to_set(), parents@),
                forall|k: int| 0 <= k < i ==> plate_entry_ok(self.nodes@, self.plates@, #[trigger] ids@[k]),
                forall|k: int| 0 <= k < i ==> plate_passes(*self, #[trigger] ids@[k]),
            decreases ids@.len() - i,
        {
            let pid = ids[i];
            assert(ids@.to_set().contains(pid));
            proof {
                lemma_earlier_plates_pass(*self, ids@, i as int);
            }
            match self.check_one_plate(pid, &mut owners, &mut parents, Ghost(ids@.take(i as int).to_set())) {
                Ok(()) => {},
                Err(e) => {
                    proof {
                        lemma_violation_not_well_formed(*self, e);
                        lemma_earlier_plates_pass(*self, ids@, i as int);
                        assert(first_plate_error(*self, pid, e));
                    }
                    return Err(e);
                },
            }
            proof {
                assert(ids@.take(i + 1).to_set() =~= ids@.take(i as int).to_set().insert(pid)) by {
                    assert(ids@.take(i + 1) =~= ids@.take(i as int).push(pid));
                }
            }
            i = i + 1;
        }
        proof {
            assert(ids@.take(ids@.len() as int) =~= ids@);
            assert forall|pid: u32| #[trigger] self.plates@.contains_key(pid) implies plate_entry_ok(self.nodes@, self.plates@, pid) by {
                assert(ids@.to_set().contains(pid));
                let k = choose|k: int| 0 <= k < ids@.len() && ids@[k] == pid;
                assert(plate_entry_ok(self.nodes@, self.plates@, ids@[k]));
            }
        }
        let adj = child_adjacency(&self.plates);
        match find_cycle(&adj) {
            Ok(()) => {
                proof {
                    lemma_maps_give_well_formed(*self, owners@, parents@);
                }
            },
            Err(c) => {
                let mut cycle = crate::util::copy_ids(&c);
                cycle.push(c[0]);
                let e = PlateError::Cycle { cycle };
                proof {
                    assert(succ_view(adj@) == child_graph(self.plates@));
                    assert forall|a: u32, b: u32, x: u32| #[trigger] has_edge(child_graph(self.plates@), a, x)
                        && #[trigger] has_edge(child_graph(self.plates@), b, x) implies a == b by {
                        assert(parent_of(self.plates@, a, x));
                        assert(parent_of(self.plates@, b, x));
                    }
                    assert(single_parent(succ_view(adj@)));
                    assert(cycle@.drop_last() =~= c@);
                    assert(plate_violation(*self, e));
                    lemma_violation_not_well_formed(*self, e);
                    lemma_all_plates_pass(*self, ids@);
                }
                return Err(e);
            },
        }
        Ok((owners, parents))
    }
}

} // verus!
