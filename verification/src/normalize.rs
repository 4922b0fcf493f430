//! The normalized plate tree: every plate scope with its sorted direct nodes and
//! child scopes, and every node's path of plates from the root.
use crate::cycles::{acyclic, is_cycle, lemma_cycle_not_acyclic};
use crate::graph_ir::GraphIR;
use crate::plate_errors::PlateError;
use crate::plate_validation::{child_graph, first_structure_error, owns, parent_of, plate_entry_ok, plate_violation, plates_well_formed};
use crate::util::{copy_ids, sort_unique, sorted_keys, strictly_increasing};
use std::collections::HashMap;
use vstd::prelude::*;

verus! {

broadcast use {vstd::std_specs::hash::group_hash_axioms, vstd::seq_lib::group_seq_properties};

/// A plate of the normalized tree with its repetition count.
#[derive(Clone, Copy, Debug, PartialEq, Eq, Structural)]
pub struct NormalizedPlate {
    pub id: u32,
    pub n: usize,
}

/// One scope of the normalized tree: the root (no plate) or a plate.
#[derive(Debug)]
pub struct NormalizedScope {
    pub plate: Option<NormalizedPlate>,
    /// Direct member nodes in increasing id order.
    pub nodes: Vec<u32>,
    /// Child plate scopes in increasing plate id order.
    pub children: Vec<NormalizedScope>,
}

/// The normalized tree and the plate path of every node.
#[derive(Debug)]
pub struct NormalizedPlates {
    pub root: NormalizedScope,
    /// For each node, the plates enclosing it from the outermost to its owner.
    pub node_paths: HashMap<u32, Vec<u32>>,
}

/// The plate id of a plate scope.
pub open spec fn scope_plate_id(s: NormalizedScope) -> u32 {
    s.plate.unwrap().id
}

/// The plate ids of a sequence of plate scopes.
pub open spec fn child_plate_ids(children: Seq<NormalizedScope>) -> Seq<u32> {
    children.map_values(|c: NormalizedScope| scope_plate_id(c))
}

/// `s` lists the elements of `of` in strictly increasing order.
pub open spec fn sorted_copy(s: Seq<u32>, of: Set<u32>) -> bool {
    strictly_increasing(s) && s.to_set() == of
}

/// `path` is a chain of plates from a plate without parent down through children.
pub open spec fn is_plate_chain(g: GraphIR, path: Seq<u32>) -> bool {
    &&& forall|i: int| 0 <= i < path.len() ==> g.plates@.contains_key(#[trigger] path[i])
    &&& forall|i: int| 0 <= i < path.len() - 1 ==> #[trigger] parent_of(g.plates@, path[i], path[i + 1])
    &&& path.len() > 0 ==> forall|q: u32| !#[trigger] parent_of(g.plates@, q, path[0])
}

/// `path` is the chain of plates enclosing node `n`: empty when no plate owns it,
/// otherwise ending at its owning plate.
pub open spec fn node_path_ok(g: GraphIR, n: u32, path: Seq<u32>) -> bool {
    &&& is_plate_chain(g, path)
    &&& path.len() == 0 ==> forall|q: u32| !#[trigger] owns(g.plates@, q, n)
    &&& path.len() > 0 ==> owns(g.plates@, path.last(), n)
}

/// `scope` is the normalized scope of plate `pid`.
pub open spec fn scope_of_plate(g: GraphIR, scope: NormalizedScope, pid: u32) -> bool
    decreases scope,
{
    let p = g.plates@[pid];
    &&& scope.plate == Some(NormalizedPlate { id: pid, n: p.n })
    &&& sorted_copy(scope.nodes@, p.nodes@.to_set())
    &&& sorted_copy(child_plate_ids(scope.children@), p.plates@.to_set())
    &&& forall|i: int| 0 <= i < scope.children@.len() ==> scope_of_plate(g, #[trigger] scope.children@[i], scope_plate_id(scope.children@[i]))
}


/// Under an acyclic hierarchy a plate chain never repeats a plate.
pub proof fn lemma_chain_no_duplicates(g: GraphIR, path: Seq<u32>)
    requires
        acyclic(child_graph(g.plates@)),
        forall|i: int| 0 <= i < path.len() ==> g.plates@.contains_key(#[trigger] path[i]),
        forall|i: int| 0 <= i < path.len() - 1 ==> #[trigger] parent_of(g.plates@, path[i], path[i + 1]),
    ensures
        path.no_duplicates(),
{
    assert forall|i: int, j: int| 0 <= i < j < path.len() implies path[i] != path[j] by {
        if path[i] == path[j] {
            let c = path.subrange(i, j);
            let graph = child_graph(g.plates@);
            assert forall|k: int| 0 <= k < c.len() - 1 implies #[trigger] crate::cycles::has_edge(graph, c[k], c[k + 1]) by {
                assert(parent_of(g.plates@, path[i + k], path[i + k + 1]));
            }
            let k = j - 1;
            assert(parent_of(g.plates@, path[k], path[k + 1]));
            assert(crate::cycles::has_edge(graph, c.last(), c[0]));
            lemma_cycle_not_acyclic(graph, c);
        }
    }
}

/// Walking up from a plate through parents reaches a plate without parent, which
/// gives a plate chain ending at the start plate. `up` is the walk so far, from
/// the start plate upwards.
proof fn lemma_walk_up(g: GraphIR, up: Seq<u32>) -> (path: Seq<u32>)
    requires
        plates_well_formed(g),
        up.len() > 0,
        up.no_duplicates(),
        forall|i: int| 0 <= i < up.len() ==> g.plates@.contains_key(#[trigger] up[i]),
        forall|i: int| 0 <= i < up.len() - 1 ==> #[trigger] parent_of(g.plates@, up[i + 1], up[i]),
    ensures
        is_plate_chain(g, path),
        path.len() > 0,
        path.last() == up[0],
    decreases g.plates@.dom().len() - up.len(),
{
    let q = up.last();
    if exists|p: u32| parent_of(g.plates@, p, q) {
        let p = choose|p: u32| parent_of(g.plates@, p, q);
        let graph = child_graph(g.plates@);
        if up.contains(p) {
            let j = choose|j: int| 0 <= j < up.len() && up[j] == p;
            let seg = up.subrange(j, up.len() as int);
            let c = seg.reverse();
            assert forall|k: int| 0 <= k < c.len() - 1 implies #[trigger] crate::cycles::has_edge(graph, c[k], c[k + 1]) by {
                let m = up.len() - 2 - k;
                assert(parent_of(g.plates@, up[m + 1], up[m]));
            }
            assert(c[0] == q);
            assert(c.last() == p);
            assert(crate::cycles::has_edge(graph, c.last(), c[0]));
            lemma_cycle_not_acyclic(graph, c);
        }
        assert(up.to_set().subset_of(g.plates@.dom()));
        up.unique_seq_to_set();
        vstd::set_lib::lemma_len_subset(up.to_set(), g.plates@.dom());
        assert(up.len() < g.plates@.dom().len()) by {
            assert(up.to_set().subset_of(g.plates@.dom().remove(p)));
            vstd::set_lib::lemma_len_subset(up.to_set(), g.plates@.dom().remove(p));
        }
        let next = up.push(p);
        assert forall|i: int| 0 <= i < next.len() - 1 implies #[trigger] parent_of(g.plates@, next[i + 1], next[i]) by {
            if i < up.len() - 1 {
                assert(parent_of(g.plates@, up[i + 1], up[i]));
            }
        }
        lemma_walk_up(g, next)
    } else {
        let path = up.reverse();
        assert forall|i: int| 0 <= i < path.len() - 1 implies #[trigger] parent_of(g.plates@, path[i], path[i + 1]) by {
            let m = up.len() - 2 - i;
            assert(parent_of(g.plates@, up[m + 1], up[m]));
        }
        path
    }
}

/// Every node of a well-formed graph has a plate path.
pub proof fn lemma_node_has_path(g: GraphIR, n: u32) -> (path: Seq<u32>)
    requires
        plates_well_formed(g),
    ensures
        node_path_ok(g, n, path),
{
    if exists|q: u32| owns(g.plates@, q, n) {
        let q = choose|q: u32| owns(g.plates@, q, n);
        lemma_walk_up(g, seq![q])
    } else {
        Seq::empty()
    }
}

/// A node's plate path is unique.
pub proof fn lemma_node_path_unique(g: GraphIR, n: u32, a: Seq<u32>, b: Seq<u32>)
    requires
        plates_well_formed(g),
        node_path_ok(g, n, a),
        node_path_ok(g, n, b),
    ensures
        a == b,
    decreases a.len(),
{
    if a.len() == 0 {
        if b.len() > 0 {
            assert(owns(g.plates@, b.last(), n));
        }
    } else {
        if b.len() == 0 {
            assert(owns(g.plates@, a.last(), n));
        } else {
            assert(a.last() == b.last());
            lemma_chain_suffix_unique(g, a, b);
        }
    }
}

/// Two plate chains that end at the same plate are equal.
pub proof fn lemma_chain_suffix_unique(g: GraphIR, a: Seq<u32>, b: Seq<u32>)
    requires
        plates_well_formed(g),
        is_plate_chain(g, a),
        is_plate_chain(g, b),
        a.len() > 0,
        b.len() > 0,
        a.last() == b.last(),
    ensures
        a == b,
    decreases a.len() + b.len(),
{
    if a.len() == 1 {
        if b.len() > 1 {
            let k = b.len() - 2;
            assert(parent_of(g.plates@, b[k], b[k + 1]));
            assert(!parent_of(g.plates@, b[b.len() - 2], a[0]));
        }
        assert(a =~= b);
    } else if b.len() == 1 {
        let k = a.len() - 2;
        assert(parent_of(g.plates@, a[k], a[k + 1]));
        assert(!parent_of(g.plates@, a[a.len() - 2], b[0]));
    } else {
        let ka = a.len() - 2;
        let kb = b.len() - 2;
        assert(parent_of(g.plates@, a[ka], a[ka + 1]));
        assert(parent_of(g.plates@, b[kb], b[kb + 1]));
        assert(a[a.len() - 2] == b[b.len() - 2]);
        let a2 = a.drop_last();
        let b2 = b.drop_last();
        assert forall|i: int| 0 <= i < a2.len() - 1 implies #[trigger] parent_of(g.plates@, a2[i], a2[i + 1]) by {
            assert(parent_of(g.plates@, a[i], a[i + 1]));
        }
        assert forall|i: int| 0 <= i < b2.len() - 1 implies #[trigger] parent_of(g.plates@, b2[i], b2[i + 1]) by {
            assert(parent_of(g.plates@, b[i], b[i + 1]));
        }
        lemma_chain_suffix_unique(g, a2, b2);
        assert(a =~= a2.push(a.last()));
        assert(b =~= b2.push(b.last()));
    }
}


/// Every stored key is a node and its stored path is the node's plate path.
pub open spec fn paths_valid(g: GraphIR, m: Map<u32, Vec<u32>>) -> bool {
    forall|n: u32| #[trigger] m.contains_key(n) ==> g.nodes@.contains_key(n) && node_path_ok(g, n, m[n]@)
}

/// Every node whose plate path starts with `prefix` has a stored path.
pub open spec fn covers(g: GraphIR, m: Map<u32, Vec<u32>>, prefix: Seq<u32>) -> bool {
    forall|n: u32, path: Seq<u32>| #[trigger] node_path_ok(g, n, path) && prefix.is_prefix_of(path) ==> m.contains_key(n)
}

proof fn lemma_covers_grow(g: GraphIR, a: Map<u32, Vec<u32>>, b: Map<u32, Vec<u32>>, prefix: Seq<u32>)
    requires
        covers(g, a, prefix),
        a.dom().subset_of(b.dom()),
    ensures
        covers(g, b, prefix),
{
}

/// The root scope: no plate, the unowned nodes in increasing order, and the scopes
/// of the plates without parent in increasing order.
pub open spec fn root_scope_ok(g: GraphIR, root: NormalizedScope) -> bool {
    &&& root.plate is None
    &&& sorted_copy(root.nodes@, g.nodes@.dom().filter(|n: u32| forall|q: u32| !#[trigger] owns(g.plates@, q, n)))
    &&& sorted_copy(child_plate_ids(root.children@),
        g.plates@.dom().filter(|p: u32| forall|q: u32| !#[trigger] parent_of(g.plates@, q, p)))
    &&& forall|i: int| 0 <= i < root.children@.len() ==> scope_of_plate(g, #[trigger] root.children@[i], scope_plate_id(root.children@[i]))
}

/// The normalized tree and node paths describe the graph's plates exactly.
pub open spec fn normalized_ok(g: GraphIR, np: NormalizedPlates) -> bool {
    &&& root_scope_ok(g, np.root)
    &&& np.node_paths@.dom() == g.nodes@.dom()
    &&& paths_valid(g, np.node_paths@)
}

/// The plate path of every node of a graph, each held in a vector.
pub open spec fn plate_paths(g: GraphIR) -> Map<u32, Vec<u32>> {
    Map::new(|n: u32| g.nodes@.contains_key(n), |n: u32| choose|v: Vec<u32>| node_path_ok(g, n, v@))
}

/// The normalized node paths are the graph's plate paths.
pub proof fn lemma_plate_paths(g: GraphIR, np: NormalizedPlates)
    requires
        plates_well_formed(g),
        normalized_ok(g, np),
    ensures
        plate_paths(g).dom() == np.node_paths@.dom(),
        forall|n: u32| #[trigger] np.node_paths@.contains_key(n) ==> plate_paths(g)[n]@ == np.node_paths@[n]@,
{
    assert(plate_paths(g).dom() =~= np.node_paths@.dom());
    assert forall|n: u32| #[trigger] np.node_paths@.contains_key(n) implies plate_paths(g)[n]@ == np.node_paths@[n]@ by {
        let v = np.node_paths@[n];
        assert(node_path_ok(g, n, v@));
        let w = choose|w: Vec<u32>| node_path_ok(g, n, w@);
        lemma_node_path_unique(g, n, v@, w@);
    }
}

/// The ids of `ids` that are not keys of `m`, keeping their order.
fn ids_not_in(ids: &Vec<u32>, m: &HashMap<u32, u32>) -> (kept: Vec<u32>)
    requires
        strictly_increasing(ids@),
    ensures
        strictly_increasing(kept@),
        kept@.to_set() == ids@.to_set().filter(|x: u32| !m@.contains_key(x)),
{
    let mut kept: Vec<u32> = Vec::new();
    let mut i: usize = 0;
    while i < ids.len()
        invariant
            i <= ids@.len(),
            strictly_increasing(ids@),
            strictly_increasing(kept@),
            forall|a: int| 0 <= a < kept@.len() ==> exists|k: int| 0 <= k < i && #[trigger] ids@[k] == #[trigger] kept@[a],
            kept@.to_set() == ids@.take(i as int).to_set().filter(|x: u32| !m@.contains_key(x)),
        decreases ids@.len() - i,
    {
        let x = ids[i];
        let ghost before = kept@;
        if !m.contains_key(&x) {
            proof {
                assert forall|a: int| 0 <= a < before.len() implies before[a] < x by {
                    let k = choose|k: int| 0 <= k < i && #[trigger] ids@[k] == before[a];
                }
            }
            kept.push(x);
        }
        proof {
            assert(ids@.take(i + 1) =~= ids@.take(i as int).push(x));
            let t0 = ids@.take(i as int).to_set();
            assert(ids@.take(i + 1).to_set() =~= t0.insert(x));
            if !m@.contains_key(x) {
                assert(kept@ =~= before.push(x));
                assert(kept@.to_set() =~= before.to_set().insert(x));
                assert(t0.insert(x).filter(|y: u32| !m@.contains_key(y)) =~= t0.filter(|y: u32| !m@.contains_key(y)).insert(x));
            } else {
                assert(t0.insert(x).filter(|y: u32| !m@.contains_key(y)) =~= t0.filter(|y: u32| !m@.contains_key(y)));
            }
            assert(kept@.to_set() =~= ids@.take(i + 1).to_set().filter(|y: u32| !m@.contains_key(y)));
            assert forall|a: int| 0 <= a < kept@.len() implies exists|k: int| 0 <= k < i + 1 && #[trigger] ids@[k] == #[trigger] kept@[a] by {
                if a < before.len() {
                    let k = choose|k: int| 0 <= k < i && #[trigger] ids@[k] == before[a];
                    assert(ids@[k] == kept@[a]);
                } else {
                    assert(ids@[i as int] == kept@[a]);
                }
            }
        }
        i = i + 1;
    }
    assert(ids@.take(ids@.len() as int) =~= ids@);
    kept
}

impl GraphIR {
    /// Builds the scope of plate `plate_id`, recording the path of every node in
    /// its subtree. `parent_path` is the chain of plates above it.
    fn build_normalized_scope(
        &self,
        plate_id: u32,
        parent_path: &mut Vec<u32>,
        node_paths: &mut HashMap<u32, Vec<u32>>,
    ) -> (scope: NormalizedScope)
        requires
            plates_well_formed(*self),
            self.plates@.contains_key(plate_id),
            is_plate_chain(*self, old(parent_path)@.push(plate_id)),
            paths_valid(*self, old(node_paths)@),
        ensures
            scope_of_plate(*self, scope, plate_id),
            final(parent_path)@ == old(parent_path)@,
            paths_valid(*self, final(node_paths)@),
            old(node_paths)@.dom().subset_of(final(node_paths)@.dom()),
            covers(*self, final(node_paths)@, old(parent_path)@.push(plate_id)),
        decreases self.plates@.dom().len() - old(parent_path)@.len(),
    {
        let ghost prefix = old(parent_path)@.push(plate_id);
        let ghost paths0 = node_paths@;
        proof {
            lemma_chain_no_duplicates(*self, prefix);
            prefix.unique_seq_to_set();
            vstd::set_lib::lemma_len_subset(prefix.to_set(), self.plates@.dom());
        }
        let plate = self.plates.get(&plate_id).unwrap();
        assert(plate_entry_ok(self.nodes@, self.plates@, plate_id));
        parent_path.push(plate_id);
        let nodes = sort_unique(&plate.nodes);
        let mut i: usize = 0;
        while i < nodes.len()
            invariant
                plates_well_formed(*self),
                *plate == self.plates@[plate_id],
                self.plates@.contains_key(plate_id),
                i <= nodes@.len(),
                nodes@.to_set() == plate.nodes@.to_set(),
                parent_path@ == prefix,
                prefix.len() > 0,
                prefix.last() == plate_id,
                is_plate_chain(*self, prefix),
                paths_valid(*self, node_paths@),
                paths0.dom().subset_of(node_paths@.dom()),
                forall|k: int| 0 <= k < i ==> node_paths@.contains_key(#[trigger] nodes@[k]),
            decreases nodes@.len() - i,
        {
            let node = nodes[i];
            let path = copy_ids(parent_path);
            proof {
                assert(nodes@.to_set().contains(node));
                assert(owns(self.plates@, plate_id, node));
                assert(prefix.last() == plate_id);
                let q = choose|q: int| 0 <= q < plate.nodes@.len() && plate.nodes@[q] == node;
                assert(self.nodes@.contains_key(plate.nodes@[q]));
            }
            node_paths.insert(node, path);
            i = i + 1;
        }
        let child_ids = sort_unique(&plate.plates);
        let mut children: Vec<NormalizedScope> = Vec::new();
        let mut j: usize = 0;
        while j < child_ids.len()
            invariant
                plates_well_formed(*self),
                *plate == self.plates@[plate_id],
                self.plates@.contains_key(plate_id),
                plate_entry_ok(self.nodes@, self.plates@, plate_id),
                j <= child_ids@.len(),
                child_ids@.to_set() == plate.plates@.to_set(),
                parent_path@ == prefix,
                prefix.len() > 0,
                prefix.last() == plate_id,
                prefix == old(parent_path)@.push(plate_id),
                is_plate_chain(*self, prefix),
                paths_valid(*self, node_paths@),
                paths0.dom().subset_of(node_paths@.dom()),
                forall|k: int| 0 <= k < nodes@.len() ==> node_paths@.contains_key(#[trigger] nodes@[k]),
                children@.len() == j,
                forall|k: int| 0 <= k < j ==> #[trigger] scope_of_plate(*self, children@[k], child_ids@[k]),
                forall|k: int| 0 <= k < j ==> scope_plate_id(#[trigger] children@[k]) == child_ids@[k],
                forall|k: int| 0 <= k < j ==> covers(*self, node_paths@, prefix.push(#[trigger] child_ids@[k])),
            decreases child_ids@.len() - j,
        {
            let child = child_ids[j];
            let ghost paths_before = node_paths@;
            proof {
                assert(child_ids@.to_set().contains(child));
                let q = choose|q: int| 0 <= q < plate.plates@.len() && plate.plates@[q] == child;
                assert(self.plates@.contains_key(plate.plates@[q]));
                assert(parent_of(self.plates@, plate_id, child));
                let ext = prefix.push(child);
                assert forall|k: int| 0 <= k < ext.len() - 1 implies #[trigger] parent_of(self.plates@, ext[k], ext[k + 1]) by {
                    if k < prefix.len() - 1 {
                        assert(parent_of(self.plates@, prefix[k], prefix[k + 1]));
                    }
                }
                assert(is_plate_chain(*self, ext));
                lemma_chain_no_duplicates(*self, ext);
                ext.unique_seq_to_set();
                assert(ext.to_set().subset_of(self.plates@.dom()));
                vstd::set_lib::lemma_len_subset(ext.to_set(), self.plates@.dom());
                assert(ext.len() <= self.plates@.dom().len());
            }
            let scope = self.build_normalized_scope(child, parent_path, node_paths);
            children.push(scope);
            proof {
                assert forall|k: int| 0 <= k < j implies covers(*self, node_paths@, prefix.push(#[trigger] child_ids@[k])) by {
                    lemma_covers_grow(*self, paths_before, node_paths@, prefix.push(child_ids@[k]));
                }
                assert(children@[j as int] == scope);
            }
            j = j + 1;
        }
        parent_path.pop();
        proof {
            assert(parent_path@ =~= old(parent_path)@);
            assert(child_plate_ids(children@) =~= child_ids@);
            assert forall|n: u32, path: Seq<u32>| #[trigger] node_path_ok(*self, n, path) && prefix.is_prefix_of(path)
                implies node_paths@.contains_key(n) by {
                if path.len() == prefix.len() {
                    assert(path =~= prefix);
                    assert(owns(self.plates@, plate_id, n));
                    assert(nodes@.to_set().contains(n));
                    let k = choose|k: int| 0 <= k < nodes@.len() && nodes@[k] == n;
                    assert(node_paths@.contains_key(nodes@[k]));
                } else {
                    let m = prefix.len() - 1;
                    assert(path[m] == plate_id);
                    assert(parent_of(self.plates@, path[m], path[m + 1]));
                    let c = path[m + 1];
                    assert(plate.plates@.contains(c));
                    assert(child_ids@.to_set().contains(c));
                    let k = choose|k: int| 0 <= k < child_ids@.len() && child_ids@[k] == c;
                    assert(covers(*self, node_paths@, prefix.push(child_ids@[k])));
                    assert(prefix.push(c).is_prefix_of(path));
                }
            }
        }
        let scope = NormalizedScope {
            plate: Some(NormalizedPlate { id: plate.id, n: plate.n }),
            nodes,
            children,
        };
        proof {
            assert(scope.plate == Some(NormalizedPlate { id: plate_id, n: self.plates@[plate_id].n }));
            assert(sorted_copy(scope.nodes@, self.plates@[plate_id].nodes@.to_set()));
            assert(sorted_copy(child_plate_ids(scope.children@), self.plates@[plate_id].plates@.to_set()));
            assert forall|i: int| 0 <= i < scope.children@.len() implies scope_of_plate(*self, #[trigger] scope.children@[i], scope_plate_id(scope.children@[i])) by {
                assert(scope_of_plate(*self, children@[i], child_ids@[i]));
                assert(scope_plate_id(children@[i]) == child_ids@[i]);
            }
        }
        scope
    }

    /// Checks the plate rules and builds the normalized plate tree: the root scope
    /// holds the nodes no plate owns and the plates without parent, each plate
    /// scope its direct nodes and child plates, all in increasing id order; every
    /// node gets its path of enclosing plates.
    pub fn normalize_plates(&self) -> (result: Result<NormalizedPlates, PlateError>)
        ensures
            result is Ok <==> plates_well_formed(*self),
            result matches Err(e) ==> plate_violation(*self, e) && first_structure_error(*self, e),
            result matches Ok(np) ==> normalized_ok(*self, np),
    {
        let (owners, parents) = match self.check_plate_structure() {
            Ok(maps) => maps,
            Err(e) => { return Err(e); },
        };
        let node_ids = sorted_keys(&self.nodes);
        let root_nodes = ids_not_in(&node_ids, &owners);
        let plate_ids = sorted_keys(&self.plates);
        let root_plates = ids_not_in(&plate_ids, &parents);
        let ghost unowned = self.nodes@.dom().filter(|n: u32| forall|q: u32| !#[trigger] owns(self.plates@, q, n));
        let ghost orphan = self.plates@.dom().filter(|p: u32| forall|q: u32| !#[trigger] parent_of(self.plates@, q, p));
        proof {
            assert(root_nodes@.to_set() =~= unowned) by {
                assert forall|n: u32| root_nodes@.to_set().contains(n) implies unowned.contains(n) by {
                    assert forall|q: u32| !#[trigger] owns(self.plates@, q, n) by {
                        if owns(self.plates@, q, n) {
                            assert(self.plates@.dom().contains(q));
                        }
                    }
                }
                assert forall|n: u32| unowned.contains(n) implies root_nodes@.to_set().contains(n) by {
                    assert(node_ids@.to_set().contains(n));
                    if owners@.contains_key(n) {
                        assert(owns(self.plates@, owners@[n], n));
                    }
                }
            }
            assert(root_plates@.to_set() =~= orphan) by {
                assert forall|p: u32| root_plates@.to_set().contains(p) implies orphan.contains(p) by {
                    assert forall|q: u32| !#[trigger] parent_of(self.plates@, q, p) by {
                        if parent_of(self.plates@, q, p) {
                            assert(self.plates@.dom().contains(q));
                        }
                    }
                }
                assert forall|p: u32| orphan.contains(p) implies root_plates@.to_set().contains(p) by {
                    assert(plate_ids@.to_set().contains(p));
                    if parents@.contains_key(p) {
                        assert(parent_of(self.plates@, parents@[p], p));
                    }
                }
            }
        }
        let mut node_paths: HashMap<u32, Vec<u32>> = HashMap::new();
        let mut i: usize = 0;
        while i < root_nodes.len()
            invariant
                i <= root_nodes@.len(),
                plates_well_formed(*self),
                root_nodes@.to_set() == unowned,
                unowned == self.nodes@.dom().filter(|n: u32| forall|q: u32| !#[trigger] owns(self.plates@, q, n)),
                paths_valid(*self, node_paths@),
                forall|k: int| 0 <= k < i ==> node_paths@.contains_key(#[trigger] root_nodes@[k]),
            decreases root_nodes@.len() - i,
        {
            let n = root_nodes[i];
            proof {
                assert(root_nodes@.to_set().contains(n));
                assert(unowned.contains(n));
            }
            node_paths.insert(n, Vec::new());
            proof {
                assert(node_paths@[n]@ =~= Seq::<u32>::empty());
                assert(node_path_ok(*self, n, node_paths@[n]@));
            }
            i = i + 1;
        }
        let mut children: Vec<NormalizedScope> = Vec::new();
        let mut j: usize = 0;
        while j < root_plates.len()
            invariant
                j <= root_plates@.len(),
                plates_well_formed(*self),
                root_plates@.to_set() == orphan,
                orphan == self.plates@.dom().filter(|p: u32| forall|q: u32| !#[trigger] parent_of(self.plates@, q, p)),
                root_nodes@.to_set() == unowned,
                paths_valid(*self, node_paths@),
                forall|k: int| 0 <= k < root_nodes@.len() ==> node_paths@.contains_key(#[trigger] root_nodes@[k]),
                children@.len() == j,
                forall|k: int| 0 <= k < j ==> #[trigger] scope_of_plate(*self, children@[k], root_plates@[k]),
                forall|k: int| 0 <= k < j ==> scope_plate_id(#[trigger] children@[k]) == root_plates@[k],
                forall|k: int| 0 <= k < j ==> covers(*self, node_paths@, seq![#[trigger] root_plates@[k]]),
            decreases root_plates@.len() - j,
        {
            let pid = root_plates[j];
            let ghost before = node_paths@;
            let mut above: Vec<u32> = Vec::new();
            proof {
                assert(root_plates@.to_set().contains(pid));
                assert(orphan.contains(pid));
                assert(above@.push(pid) =~= seq![pid]);
                assert(is_plate_chain(*self, seq![pid]));
            }
            let scope = self.build_normalized_scope(pid, &mut above, &mut node_paths);
            children.push(scope);
            proof {
                assert(above@.push(pid) =~= seq![pid]);
                assert forall|k: int| 0 <= k < j implies covers(*self, node_paths@, seq![#[trigger] root_plates@[k]]) by {
                    lemma_covers_grow(*self, before, node_paths@, seq![root_plates@[k]]);
                }
                assert(children@[j as int] == scope);
            }
            j = j + 1;
        }
        proof {
            assert(child_plate_ids(children@) =~= root_plates@);
            assert forall|n: u32| #[trigger] self.nodes@.contains_key(n) implies node_paths@.contains_key(n) by {
                let path = lemma_node_has_path(*self, n);
                if path.len() == 0 {
                    assert(unowned.contains(n));
                    assert(root_nodes@.to_set().contains(n));
                    let k = choose|k: int| 0 <= k < root_nodes@.len() && root_nodes@[k] == n;
                    assert(node_paths@.contains_key(root_nodes@[k]));
                } else {
                    let p0 = path[0];
                    assert(self.plates@.contains_key(p0));
                    assert(orphan.contains(p0));
                    assert(root_plates@.to_set().contains(p0));
                    let k = choose|k: int| 0 <= k < root_plates@.len() && root_plates@[k] == p0;
                    assert(covers(*self, node_paths@, seq![root_plates@[k]]));
                    assert(seq![p0].is_prefix_of(path));
                }
            }
            assert(node_paths@.dom() =~= self.nodes@.dom());
        }
        let root = NormalizedScope { plate: None, nodes: root_nodes, children };
        proof {
            assert forall|i: int| 0 <= i < root.children@.len() implies scope_of_plate(*self, #[trigger] root.children@[i], scope_plate_id(root.children@[i])) by {
                assert(scope_of_plate(*self, children@[i], root_plates@[i]));
                assert(scope_plate_id(children@[i]) == root_plates@[i]);
            }
        }
        Ok(NormalizedPlates { root, node_paths })
    }
}

} // verus!
