//! Structural checks of the dependency graph: cycles and topological order.
use crate::cycles::{acyclic, find_cycle, has_edge, has_succ_in, is_cycle, is_trap, succ_view};
use crate::graph_ir::{
    dependencies, node_producers, producers, references_missing, GraphIR, NodeIR,
};
use crate::text::{decimal, push_decimal, push_str};
use crate::util::{sorted_keys, strictly_increasing};
use std::collections::{HashMap, HashSet};
use vstd::prelude::*;

verus! {

broadcast use {vstd::std_specs::hash::group_hash_axioms, vstd::seq_lib::group_seq_properties};

/// A parameter of `node` refers to `missing`, which is not in the graph.
#[derive(Clone, Copy, Debug, PartialEq, Eq, Structural)]
pub struct MissingNodeError {
    pub node: u32,
    pub missing: u32,
}

impl MissingNodeError {
    pub open spec fn message_spec(self) -> Seq<char> {
        "node "@ + decimal(self.node as nat) + " references missing node "@ + decimal(self.missing as nat)
    }

    /// `node {node} references missing node {missing}`.
    pub fn message(&self) -> (text: String)
        ensures
            text@ == self.message_spec(),
    {
        let mut text = String::new();
        push_str(&mut text, "node ");
        push_decimal(&mut text, self.node as u64);
        push_str(&mut text, " references missing node ");
        push_decimal(&mut text, self.missing as u64);
        text
    }
}

/// `id` can be emitted after `emitted`: it is a node not yet emitted whose
/// producers have all been emitted.
pub open spec fn ready(nodes: Map<u32, NodeIR>, emitted: Seq<u32>, id: u32) -> bool {
    &&& nodes.contains_key(id)
    &&& !emitted.contains(id)
    &&& forall|i: int| 0 <= i < producers(nodes[id]).len() ==> emitted.contains(#[trigger] producers(nodes[id])[i])
}

/// `order` repeatedly emits the smallest ready node until no node is ready.
pub open spec fn smallest_ready_order(nodes: Map<u32, NodeIR>, order: Seq<u32>) -> bool {
    &&& forall|i: int| 0 <= i < order.len() ==> #[trigger] ready(nodes, order.take(i), order[i])
    &&& forall|i: int, j: u32| 0 <= i < order.len() && #[trigger] ready(nodes, order.take(i), j) ==> order[i] <= j
    &&& forall|j: u32| !#[trigger] ready(nodes, order, j)
}

/// Successor lists of the dependency graph: each node id maps to its producers.
fn dependency_adjacency(nodes: &HashMap<u32, NodeIR>) -> (adj: HashMap<u32, Vec<u32>>)
    ensures
        succ_view(adj@) == dependencies(nodes@),
{
    let ids = sorted_keys(nodes);
    let mut adj: HashMap<u32, Vec<u32>> = HashMap::new();
    let mut i: usize = 0;
    while i < ids.len()
        invariant
            i <= ids@.len(),
            ids@.to_set() == nodes@.dom(),
            adj@.dom() == ids@.take(i as int).to_set(),
            forall|k: u32| #[trigger] adj@.contains_key(k) ==> nodes@.contains_key(k) && adj@[k]@ == producers(nodes@[k]),
        decreases ids@.len() - i,
    {
        let id = ids[i];
        assert(ids@.to_set().contains(id));
        let node = nodes.get(&id).unwrap();
        let prods = node_producers(node);
        adj.insert(id, prods);
        proof {
            assert(ids@.take(i + 1) == ids@.take(i as int).push(id));
        }
        i = i + 1;
    }
    proof {
        assert(ids@.take(ids@.len() as int) == ids@);
        assert(succ_view(adj@) =~= dependencies(nodes@));
    }
    adj
}

/// Whether every id of `ids` is in `emitted`.
fn all_in(ids: &Vec<u32>, emitted: &HashSet<u32>) -> (all: bool)
    ensures
        all == forall|i: int| 0 <= i < ids@.len() ==> emitted@.contains(#[trigger] ids@[i]),
{
    let mut i: usize = 0;
    while i < ids.len()
        invariant
            i <= ids@.len(),
            forall|k: int| 0 <= k < i ==> emitted@.contains(#[trigger] ids@[k]),
        decreases ids@.len() - i,
    {
        if !emitted.contains(&ids[i]) {
            return false;
        }
        i = i + 1;
    }
    true
}

/// The position in `ids` of the first id that is ready after `order`.
fn first_ready(
    nodes: &HashMap<u32, NodeIR>,
    ids: &Vec<u32>,
    emitted: &HashSet<u32>,
    Ghost(order): Ghost<Seq<u32>>,
) -> (found: Option<usize>)
    requires
        ids@.to_set() == nodes@.dom(),
        emitted@ == order.to_set(),
    ensures
        found matches Some(k) ==> k < ids@.len() && ready(nodes@, order, ids@[k as int]) && forall|q: int|
            0 <= q < k ==> !ready(nodes@, order, #[trigger] ids@[q]),
        found is None ==> forall|q: int| 0 <= q < ids@.len() ==> !ready(nodes@, order, #[trigger] ids@[q]),
{
    let mut k: usize = 0;
    while k < ids.len()
        invariant
            k <= ids@.len(),
            ids@.to_set() == nodes@.dom(),
            emitted@ == order.to_set(),
            forall|q: int| 0 <= q < k ==> !ready(nodes@, order, #[trigger] ids@[q]),
        decreases ids@.len() - k,
    {
        let id = ids[k];
        assert(ids@.to_set().contains(id));
        if !emitted.contains(&id) {
            let node = nodes.get(&id).unwrap();
            let prods = node_producers(node);
            if all_in(&prods, emitted) {
                return Some(k);
            }
        }
        k = k + 1;
    }
    None
}

impl GraphIR {
    /// Searches the dependencies for a cycle. The error lists a cycle of node ids:
    /// each depends on the next, and the last depends on the first; no node appears twice.
    pub fn check_cycles(&self) -> (result: Result<(), Vec<u32>>)
        ensures
            result is Ok <==> acyclic(dependencies(self.nodes@)),
            result matches Err(c) ==> is_cycle(dependencies(self.nodes@), c@) && c@.no_duplicates(),
    {
        let adj = dependency_adjacency(&self.nodes);
        find_cycle(&adj)
    }

    /// Orders the nodes so that every node comes after the nodes it depends on,
    /// always emitting the smallest id whose dependencies are already emitted.
    /// A graph with a cycle yields an order that leaves out the nodes on or behind
    /// the cycle.
    pub fn topological_sort(&self) -> (result: Result<Vec<u32>, MissingNodeError>)
        ensures
            result is Err <==> references_missing(self.nodes@),
            result matches Err(e) ==> self.nodes@.contains_key(e.node) && producers(self.nodes@[e.node]).contains(e.missing)
                && !self.nodes@.contains_key(e.missing),
            result matches Ok(order) ==> smallest_ready_order(self.nodes@, order@),
    {
        let ids = sorted_keys(&self.nodes);
        let mut i: usize = 0;
        while i < ids.len()
            invariant
                i <= ids@.len(),
                ids@.to_set() == self.nodes@.dom(),
                forall|k: int, j: int| 0 <= k < i && 0 <= j < producers(self.nodes@[ids@[k]]).len()
                    ==> self.nodes@.contains_key(#[trigger] producers(self.nodes@[#[trigger] ids@[k]])[j]),
            decreases ids@.len() - i,
        {
            let id = ids[i];
            assert(ids@.to_set().contains(id));
            let node = self.nodes.get(&id).unwrap();
            let prods = node_producers(node);
            let mut j: usize = 0;
            while j < prods.len()
                invariant
                    j <= prods@.len(),
                    prods@ == producers(self.nodes@[id]),
                    self.nodes@.contains_key(id),
                    forall|q: int| 0 <= q < j ==> self.nodes@.contains_key(#[trigger] prods@[q]),
                decreases prods@.len() - j,
            {
                if !self.nodes.contains_key(&prods[j]) {
                    return Err(MissingNodeError { node: id, missing: prods[j] });
                }
                j = j + 1;
            }
            i = i + 1;
        }
        proof {
            assert forall|c: u32, q: int| self.nodes@.contains_key(c) && 0 <= q < producers(self.nodes@[c]).len()
                implies self.nodes@.contains_key(#[trigger] producers(self.nodes@[c])[q]) by {
                assert(ids@.to_set().contains(c));
                let k = choose|k: int| 0 <= k < ids@.len() && ids@[k] == c;
                assert(self.nodes@.contains_key(producers(self.nodes@[ids@[k]])[q]));
            }
        }
        let mut emitted: HashSet<u32> = HashSet::new();
        let mut order: Vec<u32> = Vec::new();
        loop
            invariant
                ids@.to_set() == self.nodes@.dom(),
                strictly_increasing(ids@),
                ids@.no_duplicates(),
                ids@.len() == self.nodes@.dom().len(),
                emitted@ == order@.to_set(),
                order@.no_duplicates(),
                order@.to_set().subset_of(self.nodes@.dom()),
                forall|i: int| 0 <= i < order@.len() ==> #[trigger] ready(self.nodes@, order@.take(i), order@[i]),
                forall|i: int, j: u32| 0 <= i < order@.len() && #[trigger] ready(self.nodes@, order@.take(i), j) ==> order@[i] <= j,
            ensures
                forall|i: int| 0 <= i < order@.len() ==> #[trigger] ready(self.nodes@, order@.take(i), order@[i]),
                forall|i: int, j: u32| 0 <= i < order@.len() && #[trigger] ready(self.nodes@, order@.take(i), j) ==> order@[i] <= j,
                forall|j: u32| !#[trigger] ready(self.nodes@, order@, j),
            decreases ids@.len() - order@.len(),
        {
            proof {
                order@.unique_seq_to_set();
                vstd::set_lib::lemma_len_subset(order@.to_set(), self.nodes@.dom());
            }
            let found = first_ready(&self.nodes, &ids, &emitted, Ghost(order@));
            match found {
                None => {
                    proof {
                        assert forall|j: u32| !#[trigger] ready(self.nodes@, order@, j) by {
                            if ready(self.nodes@, order@, j) {
                                assert(ids@.to_set().contains(j));
                                let q = choose|q: int| 0 <= q < ids@.len() && ids@[q] == j;
                                assert(!ready(self.nodes@, order@, ids@[q]));
                            }
                        }
                    }
                    break;
                },
                Some(k) => {
                    let id = ids[k];
                    proof {
                        assert(ready(self.nodes@, order@, id));
                        assert forall|j: u32| #[trigger] ready(self.nodes@, order@, j) implies id <= j by {
                            assert(ids@.to_set().contains(j));
                            let q = choose|q: int| 0 <= q < ids@.len() && ids@[q] == j;
                            if q < k {
                                assert(!ready(self.nodes@, order@, ids@[q]));
                            } else if q > k {
                                assert(ids@[k as int] < ids@[q]);
                            }
                        }
                        assert(order@.len() < ids@.len()) by {
                            assert(!order@.to_set().contains(id));
                            assert(order@.to_set().subset_of(self.nodes@.dom().remove(id)));
                            vstd::set_lib::lemma_len_subset(order@.to_set(), self.nodes@.dom().remove(id));
                        }
                    }
                    let ghost before = order@;
                    order.push(id);
                    emitted.insert(id);
                    proof {
                        assert(order@.take(before.len() as int) =~= before);
                        assert forall|i: int| 0 <= i < order@.len() implies #[trigger] ready(self.nodes@, order@.take(i), order@[i]) by {
                            if i < before.len() {
                                assert(order@.take(i) =~= before.take(i));
                            }
                        }
                        assert forall|i: int, j: u32| 0 <= i < order@.len() && #[trigger] ready(self.nodes@, order@.take(i), j)
                            implies order@[i] <= j by {
                            if i < before.len() {
                                assert(order@.take(i) =~= before.take(i));
                            }
                        }
                    }
                },
            }
        }
        Ok(order)
    }
}

/// A node that is emitted only after all of its dependencies: in an order built
/// by emitting ready nodes, every node comes after each node it depends on.
pub proof fn lemma_order_respects_dependencies(nodes: Map<u32, NodeIR>, order: Seq<u32>, i: int, p: u32)
    requires
        smallest_ready_order(nodes, order),
        0 <= i < order.len(),
        producers(nodes[order[i]]).contains(p),
    ensures
        exists|j: int| 0 <= j < i && order[j] == p,
{
    assert(ready(nodes, order.take(i), order[i]));
    let q = choose|q: int| 0 <= q < producers(nodes[order[i]]).len() && producers(nodes[order[i]])[q] == p;
    assert(order.take(i).contains(producers(nodes[order[i]])[q]));
    let j = choose|j: int| 0 <= j < order.take(i).len() && order.take(i)[j] == p;
    assert(order[j] == p);
}

/// For a graph whose parameters all refer to existing nodes, the smallest-ready
/// order contains every node exactly when the dependencies have no cycle.
pub proof fn lemma_order_complete_iff_acyclic(nodes: Map<u32, NodeIR>, order: Seq<u32>)
    requires
        smallest_ready_order(nodes, order),
        !references_missing(nodes),
        nodes.dom().finite(),
    ensures
        order.no_duplicates(),
        order.to_set().subset_of(nodes.dom()),
        (order.to_set() == nodes.dom()) <==> acyclic(dependencies(nodes)),
{
    let deps = dependencies(nodes);
    assert forall|a: int, b: int| 0 <= a < b < order.len() implies order[a] != order[b] by {
        assert(ready(nodes, order.take(b), order[b]));
        assert(order.take(b)[a] == order[a]);
    }
    assert forall|x: u32| order.to_set().contains(x) implies nodes.dom().contains(x) by {
        let i = choose|i: int| 0 <= i < order.len() && order[i] == x;
        assert(ready(nodes, order.take(i), order[i]));
    }
    if order.to_set() == nodes.dom() {
        assert forall|s: Set<u32>| !#[trigger] is_trap(deps, s) by {
            if is_trap(deps, s) {
                lemma_trap_never_emitted(nodes, order, s, order.len() as int);
                let x = choose|x: u32| s.contains(x);
                assert(has_succ_in(deps, s, x));
                assert(order.to_set().contains(x));
                let i = choose|i: int| 0 <= i < order.len() && order[i] == x;
            }
        }
    } else {
        let rest = nodes.dom().difference(order.to_set());
        assert(exists|x: u32| nodes.dom().contains(x) && !order.to_set().contains(x)) by {
            if forall|x: u32| nodes.dom().contains(x) ==> order.to_set().contains(x) {
                assert(order.to_set() =~= nodes.dom());
            }
        }
        let x0 = choose|x: u32| nodes.dom().contains(x) && !order.to_set().contains(x);
        assert(rest.contains(x0));
        assert forall|x: u32| #[trigger] rest.contains(x) implies has_succ_in(deps, rest, x) by {
            assert(!ready(nodes, order, x));
            assert(!order.contains(x));
            let q = choose|q: int| 0 <= q < producers(nodes[x]).len() && !order.contains(#[trigger] producers(nodes[x])[q]);
            let y = producers(nodes[x])[q];
            assert(nodes.contains_key(y));
            assert(rest.contains(y));
            assert(deps[x].contains(y));
        }
        assert(is_trap(deps, rest));
    }
}

/// No member of a trap is ever emitted: its first emitted member would need a
/// producer inside the trap to have been emitted before it.
proof fn lemma_trap_never_emitted(nodes: Map<u32, NodeIR>, order: Seq<u32>, s: Set<u32>, n: int)
    requires
        smallest_ready_order(nodes, order),
        is_trap(dependencies(nodes), s),
        0 <= n <= order.len(),
    ensures
        forall|i: int| 0 <= i < n ==> !s.contains(#[trigger] order[i]),
    decreases n,
{
    if n > 0 {
        lemma_trap_never_emitted(nodes, order, s, n - 1);
        let x = order[n - 1];
        if s.contains(x) {
            let deps = dependencies(nodes);
            assert(has_succ_in(deps, s, x));
            let y = choose|y: u32| s.contains(y) && #[trigger] deps[x].contains(y);
            assert(ready(nodes, order.take(n - 1), x));
            let q = choose|q: int| 0 <= q < producers(nodes[x]).len() && producers(nodes[x])[q] == y;
            assert(order.take(n - 1).contains(producers(nodes[x])[q]));
            let j = choose|j: int| 0 <= j < n - 1 && #[trigger] order.take(n - 1)[j] == y;
            assert(order[j] == y);
        }
    }
}

} // verus!
