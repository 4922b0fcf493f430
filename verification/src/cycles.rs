//! Cycle detection on a directed graph given by successor lists.
use crate::util::sorted_keys;
use std::collections::HashMap;
use vstd::prelude::*;

verus! {

broadcast use {vstd::std_specs::hash::group_hash_axioms, vstd::seq_lib::group_seq_properties};

/// The successor lists of an adjacency map, as sequences.
pub open spec fn succ_view(adj: Map<u32, Vec<u32>>) -> Map<u32, Seq<u32>> {
    adj.map_values(|v: Vec<u32>| v@)
}

/// `b` is one of the successors listed for `a`.
pub open spec fn has_edge(adj: Map<u32, Seq<u32>>, a: u32, b: u32) -> bool {
    adj.contains_key(a) && adj[a].contains(b)
}

/// `x` is listed and has a successor inside `s`.
pub open spec fn has_succ_in(adj: Map<u32, Seq<u32>>, s: Set<u32>, x: u32) -> bool {
    adj.contains_key(x) && exists|y: u32| s.contains(y) && #[trigger] adj[x].contains(y)
}

/// A nonempty set of listed vertices in which every member has a successor inside the set.
/// In a finite graph such a set exists exactly when the graph has a directed cycle.
pub open spec fn is_trap(adj: Map<u32, Seq<u32>>, s: Set<u32>) -> bool {
    &&& exists|x: u32| s.contains(x)
    &&& forall|x: u32| #[trigger] s.contains(x) ==> has_succ_in(adj, s, x)
}

/// The graph has no directed cycle.
pub open spec fn acyclic(adj: Map<u32, Seq<u32>>) -> bool {
    forall|s: Set<u32>| !#[trigger] is_trap(adj, s)
}

/// `c` walks a closed directed cycle: each vertex is followed by one of its
/// successors, and the last vertex has the first as a successor.
pub open spec fn is_cycle(adj: Map<u32, Seq<u32>>, c: Seq<u32>) -> bool {
    &&& c.len() > 0
    &&& forall|i: int| 0 <= i < c.len() - 1 ==> #[trigger] has_edge(adj, c[i], c[i + 1])
    &&& has_edge(adj, c.last(), c[0])
}

/// A closed cycle is a trap, so a graph with a cycle is not acyclic.
pub proof fn lemma_cycle_not_acyclic(adj: Map<u32, Seq<u32>>, c: Seq<u32>)
    requires
        is_cycle(adj, c),
    ensures
        is_trap(adj, c.to_set()),
        !acyclic(adj),
{
    let s = c.to_set();
    assert(s.contains(c[0]));
    assert forall|x: u32| #[trigger] s.contains(x) implies has_succ_in(adj, s, x) by {
        let i = choose|i: int| 0 <= i < c.len() && c[i] == x;
        if i < c.len() - 1 {
            assert(has_edge(adj, c[i], c[i + 1]));
            assert(s.contains(c[i + 1]));
        } else {
            assert(has_edge(adj, c.last(), c[0]));
        }
    }
}

/// Every vertex has at most one vertex listing it as a successor.
pub open spec fn single_parent(adj: Map<u32, Seq<u32>>) -> bool {
    forall|a: u32, b: u32, c: u32| #[trigger] has_edge(adj, a, c) && #[trigger] has_edge(adj, b, c) ==> a == b
}

/// `x` is no larger than any vertex on any cycle.
pub open spec fn least_on_cycles(adj: Map<u32, Seq<u32>>, x: u32) -> bool {
    forall|c: Seq<u32>, k: int| #[trigger] is_cycle(adj, c) && 0 <= k < c.len() ==> x <= #[trigger] c[k]
}

proof fn lemma_back_equal(adj: Map<u32, Seq<u32>>, c1: Seq<u32>, c2: Seq<u32>, t: int)
    requires
        single_parent(adj),
        is_cycle(adj, c1),
        is_cycle(adj, c2),
        c1[0] == c2[0],
        0 <= t < c1.len(),
        t < c2.len(),
    ensures
        c1[c1.len() - 1 - t] == c2[c2.len() - 1 - t],
    decreases t,
{
    if t == 0 {
        assert(has_edge(adj, c1.last(), c1[0]));
        assert(has_edge(adj, c2.last(), c2[0]));
    } else {
        lemma_back_equal(adj, c1, c2, t - 1);
        let p1 = c1.len() - 1 - t;
        let p2 = c2.len() - 1 - t;
        assert(has_edge(adj, c1[p1], c1[p1 + 1]));
        assert(has_edge(adj, c2[p2], c2[p2 + 1]));
    }
}

/// Where every vertex has at most one predecessor, a cycle without repeated
/// vertices is fixed by the vertex it starts at.
pub proof fn lemma_cycle_from_vertex_unique(adj: Map<u32, Seq<u32>>, c1: Seq<u32>, c2: Seq<u32>)
    requires
        single_parent(adj),
        is_cycle(adj, c1),
        is_cycle(adj, c2),
        c1.no_duplicates(),
        c2.no_duplicates(),
        c1[0] == c2[0],
    ensures
        c1 == c2,
{
    if c1.len() <= c2.len() {
        lemma_back_equal(adj, c1, c2, c1.len() - 1);
        assert(c2[c2.len() - c1.len()] == c2[0]);
        assert forall|k: int| 0 <= k < c1.len() implies c1[k] == c2[k] by {
            lemma_back_equal(adj, c1, c2, c1.len() - 1 - k);
        }
    } else {
        lemma_back_equal(adj, c1, c2, c2.len() - 1);
        assert(c1[c1.len() - c2.len()] == c1[0]);
    }
    assert(c1 =~= c2);
}

#[derive(Clone, Copy)]
pub enum VisitState {
    Visiting,
    Visited,
}

pub open spec fn visited(states: Map<u32, VisitState>, x: u32) -> bool {
    states.contains_key(x) && states[x] is Visited
}

pub open spec fn visiting(states: Map<u32, VisitState>, x: u32) -> bool {
    states.contains_key(x) && states[x] is Visiting
}

/// The stack holds exactly the vertices in progress, without repetition, along edges.
pub open spec fn stack_ok(adj: Map<u32, Seq<u32>>, states: Map<u32, VisitState>, stack: Seq<u32>) -> bool {
    &&& forall|x: u32| #[trigger] visiting(states, x) <==> stack.contains(x)
    &&& stack.no_duplicates()
    &&& forall|i: int| 0 <= i < stack.len() - 1 ==> #[trigger] has_edge(adj, stack[i], stack[i + 1])
}

/// Finished vertices have only finished successors.
pub open spec fn closed(adj: Map<u32, Seq<u32>>, states: Map<u32, VisitState>) -> bool {
    forall|x: u32, y: u32| visited(states, x) && #[trigger] has_edge(adj, x, y) ==> visited(states, y)
}

/// No trap lies entirely within the finished vertices.
#[verifier::opaque]
pub open spec fn trap_free(adj: Map<u32, Seq<u32>>, states: Map<u32, VisitState>) -> bool {
    forall|s: Set<u32>| #[trigger] is_trap(adj, s) ==> exists|x: u32| s.contains(x) && !visited(states, x)
}

pub open spec fn dfs_inv(adj: Map<u32, Seq<u32>>, states: Map<u32, VisitState>, stack: Seq<u32>) -> bool {
    &&& stack_ok(adj, states, stack)
    &&& closed(adj, states)
    &&& trap_free(adj, states)
}

/// Removing a vertex all of whose successors are finished from a trap whose other
/// members are finished leaves a trap of finished vertices.
proof fn lemma_trap_without(
    adj: Map<u32, Seq<u32>>,
    before: Map<u32, VisitState>,
    x: u32,
    s: Set<u32>,
)
    requires
        closed(adj, before),
        !visited(before, x),
        forall|b: u32| #[trigger] has_edge(adj, x, b) ==> visited(before, b),
        is_trap(adj, s),
        s.contains(x),
        forall|z: u32| s.contains(z) && z != x ==> visited(before, z),
    ensures
        is_trap(adj, s.remove(x)),
{
    let t = s.remove(x);
    assert(has_succ_in(adj, s, x));
    let y0 = choose|y: u32| s.contains(y) && adj[x].contains(y);
    assert(has_edge(adj, x, y0));
    assert(t.contains(y0));
    assert forall|a: u32| #[trigger] t.contains(a) implies has_succ_in(adj, t, a) by {
        assert(has_succ_in(adj, s, a));
        let y = choose|y: u32| s.contains(y) && adj[a].contains(y);
        assert(visited(before, a));
        assert(has_edge(adj, a, y));
        assert(visited(before, y));
        assert(t.contains(y));
    }
}

/// One trap, checked against the finished set after finishing `x`.
proof fn lemma_trap_not_finished(
    adj: Map<u32, Seq<u32>>,
    before: Map<u32, VisitState>,
    after: Map<u32, VisitState>,
    x: u32,
    s: Set<u32>,
)
    requires
        closed(adj, before),
        trap_free(adj, before),
        !visited(before, x),
        forall|b: u32| #[trigger] has_edge(adj, x, b) ==> visited(before, b),
        forall|y: u32| y != x ==> (visited(after, y) <==> visited(before, y)),
        is_trap(adj, s),
    ensures
        exists|z: u32| s.contains(z) && !visited(after, z),
{
    reveal(trap_free);
    if s.contains(x) {
        if forall|z: u32| s.contains(z) && z != x ==> visited(before, z) {
            lemma_trap_without(adj, before, x, s);
            let t = s.remove(x);
            let w = choose|w: u32| t.contains(w) && !visited(before, w);
            assert(s.contains(w) && w != x);
        } else {
            let w = choose|w: u32| !(s.contains(w) && w != x ==> visited(before, w));
            assert(s.contains(w) && !visited(after, w));
        }
    } else {
        let w = choose|w: u32| s.contains(w) && !visited(before, w);
        assert(w != x);
        assert(!visited(after, w));
    }
}

/// Finishing a vertex whose successors are all finished keeps the finished set trap-free.
proof fn lemma_finish_keeps_trap_free(
    adj: Map<u32, Seq<u32>>,
    before: Map<u32, VisitState>,
    after: Map<u32, VisitState>,
    x: u32,
)
    requires
        closed(adj, before),
        trap_free(adj, before),
        !visited(before, x),
        forall|b: u32| #[trigger] has_edge(adj, x, b) ==> visited(before, b),
        forall|y: u32| y != x ==> (visited(after, y) <==> visited(before, y)),
    ensures
        trap_free(adj, after),
{
    assert forall|s: Set<u32>| #[trigger] is_trap(adj, s) implies exists|z: u32|
        s.contains(z) && !visited(after, z) by {
        lemma_trap_not_finished(adj, before, after, x, s);
    }
    reveal(trap_free);
}

proof fn lemma_visited_forward(adj: Map<u32, Seq<u32>>, states: Map<u32, VisitState>, c: Seq<u32>, k: int, m: int)
    requires
        closed(adj, states),
        is_cycle(adj, c),
        0 <= k <= m < c.len(),
        visited(states, c[k]),
    ensures
        visited(states, c[m]),
    decreases m - k,
{
    if m > k {
        lemma_visited_forward(adj, states, c, k, m - 1);
        let q = m - 1;
        assert(has_edge(adj, c[q], c[q + 1]));
    }
}

/// A cycle with one finished vertex, among finished vertices that have only
/// finished successors, is finished all along; so it cannot exist when no trap
/// lies within the finished vertices.
proof fn lemma_no_cycle_through_visited(adj: Map<u32, Seq<u32>>, states: Map<u32, VisitState>, c: Seq<u32>, k: int)
    requires
        closed(adj, states),
        trap_free(adj, states),
        is_cycle(adj, c),
        0 <= k < c.len(),
    ensures
        !visited(states, c[k]),
{
    if visited(states, c[k]) {
        lemma_visited_forward(adj, states, c, k, c.len() - 1);
        assert(has_edge(adj, c.last(), c[0]));
        assert(visited(states, c[0]));
        lemma_cycle_not_acyclic(adj, c);
        reveal(trap_free);
        let z = choose|z: u32| c.to_set().contains(z) && !visited(states, z);
        let m = choose|m: int| 0 <= m < c.len() && c[m] == z;
        lemma_visited_forward(adj, states, c, 0, m);
    }
}

/// When the roots before `i` are finished, no cycle has a vertex smaller than
/// root `i`.
proof fn lemma_least_root(adj: Map<u32, Seq<u32>>, states: Map<u32, VisitState>, roots: Seq<u32>, i: int)
    requires
        closed(adj, states),
        trap_free(adj, states),
        0 <= i < roots.len(),
        roots.to_set() == adj.dom(),
        crate::util::strictly_increasing(roots),
        forall|j: int| 0 <= j < i ==> visited(states, #[trigger] roots[j]),
    ensures
        least_on_cycles(adj, roots[i]),
{
    assert forall|c2: Seq<u32>, k: int| #[trigger] is_cycle(adj, c2) && 0 <= k < c2.len()
        implies roots[i] <= #[trigger] c2[k] by {
        if c2[k] < roots[i] {
            if k < c2.len() - 1 {
                assert(has_edge(adj, c2[k], c2[k + 1]));
            } else {
                assert(has_edge(adj, c2.last(), c2[0]));
            }
            assert(roots.to_set().contains(c2[k]));
            let j = choose|j: int| 0 <= j < roots.len() && roots[j] == c2[k];
            if j >= i {
                if j > i {
                    assert(roots[i] < roots[j]);
                }
            }
            assert(visited(states, roots[j]));
            lemma_no_cycle_through_visited(adj, states, c2, k);
        }
    }
}

/// Returns the suffix of `stack` that starts at `node`.
fn cycle_suffix(stack: &Vec<u32>, node: u32) -> (cycle: Vec<u32>)
    requires
        stack@.contains(node),
    ensures
        exists|pos: int| 0 <= pos < stack@.len() && stack@[pos] == node && cycle@ == stack@.subrange(pos, stack@.len() as int),
{
    let mut pos: usize = 0;
    while pos < stack.len() && stack[pos] != node
        invariant
            pos <= stack@.len(),
            stack@.contains(node),
            forall|k: int| 0 <= k < pos ==> stack@[k] != node,
        decreases stack@.len() - pos,
    {
        pos = pos + 1;
    }
    proof {
        if pos == stack@.len() {
            let k = choose|k: int| 0 <= k < stack@.len() && stack@[k] == node;
            assert(false);
        }
    }
    let mut cycle: Vec<u32> = Vec::new();
    let mut k: usize = pos;
    while k < stack.len()
        invariant
            pos <= k <= stack@.len(),
            cycle@ == stack@.subrange(pos as int, k as int),
        decreases stack@.len() - k,
    {
        cycle.push(stack[k]);
        k = k + 1;
    }
    cycle
}

/// Depth-first search from `node`, following successors.
fn visit(
    node: u32,
    adj: &HashMap<u32, Vec<u32>>,
    states: &mut HashMap<u32, VisitState>,
    stack: &mut Vec<u32>,
) -> (result: Result<(), Vec<u32>>)
    requires
        dfs_inv(succ_view(adj@), old(states)@, old(stack)@),
        old(stack)@.len() > 0 ==> has_edge(succ_view(adj@), old(stack)@.last(), node),
    ensures
        result is Ok ==> {
            &&& dfs_inv(succ_view(adj@), final(states)@, final(stack)@)
            &&& final(stack)@ == old(stack)@
            &&& visited(final(states)@, node)
            &&& old(states)@.dom().subset_of(final(states)@.dom())
            &&& forall|x: u32| visited(old(states)@, x) ==> visited(final(states)@, x)
        },
        result matches Err(c) ==> is_cycle(succ_view(adj@), c@) && c@.no_duplicates(),
        result matches Err(c) ==> single_parent(succ_view(adj@))
            ==> c@[0] == (if old(stack)@.len() > 0 { old(stack)@[0] } else { node }),
    decreases adj@.dom().difference(old(states)@.dom()).len(),
{
    match states.get(&node) {
        Some(VisitState::Visited) => {
            return Ok(());
        },
        Some(VisitState::Visiting) => {
            assert(visiting(states@, node));
            let cycle = cycle_suffix(stack, node);
            proof {
                let pos = choose|pos: int| 0 <= pos < stack@.len() && stack@[pos] == node
                    && cycle@ == stack@.subrange(pos, stack@.len() as int);
                let c = cycle@;
                assert forall|i: int| 0 <= i < c.len() - 1 implies #[trigger] has_edge(succ_view(adj@), c[i], c[i + 1]) by {
                    assert(has_edge(succ_view(adj@), stack@[pos + i], stack@[pos + i + 1]));
                }
                assert(c.last() == stack@.last());
                assert forall|a: int, b: int| 0 <= a < b < c.len() implies c[a] != c[b] by {
                    assert(c[a] == stack@[pos + a] && c[b] == stack@[pos + b]);
                }
                if single_parent(succ_view(adj@)) && pos > 0 {
                    let q = pos - 1;
                    assert(has_edge(succ_view(adj@), stack@[q], stack@[q + 1]));
                    assert(has_edge(succ_view(adj@), stack@.last(), node));
                    assert(stack@[pos - 1] == stack@[stack@.len() - 1]);
                }
            }
            return Err(cycle);
        },
        None => {},
    }
    let ghost states0 = states@;
    let ghost stack0 = stack@;
    assert(!visiting(states0, node));
    assert(!stack0.contains(node));
    states.insert(node, VisitState::Visiting);
    stack.push(node);
    proof {
        reveal(trap_free);
        assert forall|x: u32| #[trigger] visiting(states@, x) <==> stack@.contains(x) by {
            if x != node {
                assert(visiting(states@, x) == visiting(states0, x));
                assert(stack@.contains(x) == stack0.contains(x));
            }
        }
        assert forall|i: int| 0 <= i < stack@.len() - 1 implies #[trigger] has_edge(succ_view(adj@), stack@[i], stack@[i + 1]) by {
            if i < stack@.len() - 2 {
                assert(has_edge(succ_view(adj@), stack0[i], stack0[i + 1]));
            }
        }
        assert forall|x: u32, y: u32| visited(states@, x) && #[trigger] has_edge(succ_view(adj@), x, y) implies visited(states@, y) by {
            assert(visited(states0, x));
        }
        assert forall|s: Set<u32>| #[trigger] is_trap(succ_view(adj@), s) implies exists|z: u32| s.contains(z) && !visited(states@, z) by {
            let z = choose|z: u32| s.contains(z) && !visited(states0, z);
            assert(!visited(states@, z));
        }
    }
    if let Some(succs) = adj.get(&node) {
        let mut i: usize = 0;
        while i < succs.len()
            invariant
                succ_view(adj@).contains_key(node),
                succs@ == succ_view(adj@)[node],
                i <= succs@.len(),
                dfs_inv(succ_view(adj@), states@, stack@),
                stack@ == stack0.push(node),
                visiting(states@, node),
                states0.dom().insert(node).subset_of(states@.dom()),
                forall|x: u32| visited(states0, x) ==> visited(states@, x),
                forall|j: int| 0 <= j < i ==> visited(states@, #[trigger] succs@[j]),
                !states0.contains_key(node),
                stack0 == old(stack)@,
                states0 == old(states)@,
            decreases succs@.len() - i,
        {
            proof {
                let d0 = adj@.dom().difference(states0.dom());
                let d1 = adj@.dom().difference(states@.dom());
                assert(d0.contains(node));
                assert(d1.subset_of(d0.remove(node)));
                vstd::set_lib::lemma_len_subset(d1, d0.remove(node));
                assert(stack@.last() == node);
                assert(has_edge(succ_view(adj@), node, succs@[i as int]));
            }
            let r = visit(succs[i], adj, states, stack);
            match r {
                Ok(()) => {},
                Err(c) => {
                    return Err(c);
                },
            }
            proof {
                assert(visiting(states@, node));
            }
            i = i + 1;
        }
    }
    let ghost states1 = states@;
    proof {
        assert forall|b: u32| #[trigger] has_edge(succ_view(adj@), node, b) implies visited(states1, b) by {
            let j = choose|j: int| 0 <= j < succ_view(adj@)[node].len() && succ_view(adj@)[node][j] == b;
            assert(visited(states1, succ_view(adj@)[node][j]));
        }
        assert(visiting(states1, node));
    }
    stack.pop();
    states.insert(node, VisitState::Visited);
    proof {
        assert(stack@ =~= stack0);
        lemma_finish_keeps_trap_free(succ_view(adj@), states1, states@, node);
        assert forall|x: u32| #[trigger] visiting(states@, x) <==> stack@.contains(x) by {
            if x != node {
                assert(visiting(states@, x) == visiting(states1, x));
                assert(stack0.push(node).contains(x) <==> stack0.contains(x));
            }
        }
        assert forall|x: u32, y: u32| visited(states@, x) && #[trigger] has_edge(succ_view(adj@), x, y) implies visited(states@, y) by {
            if x != node {
                assert(visited(states1, x));
            }
        }
        assert forall|i: int| 0 <= i < stack@.len() - 1 implies #[trigger] has_edge(succ_view(adj@), stack@[i], stack@[i + 1]) by {
            assert(has_edge(succ_view(adj@), stack0.push(node)[i], stack0.push(node)[i + 1]));
        }
    }
    Ok(())
}

/// Searches the graph for a directed cycle, starting from every listed vertex in
/// increasing order. Successors that are not listed are treated as vertices
/// without successors.
pub fn find_cycle(adj: &HashMap<u32, Vec<u32>>) -> (result: Result<(), Vec<u32>>)
    ensures
        result is Ok <==> acyclic(succ_view(adj@)),
        result matches Err(c) ==> is_cycle(succ_view(adj@), c@) && c@.no_duplicates(),
        result matches Err(c) ==> single_parent(succ_view(adj@)) ==> least_on_cycles(succ_view(adj@), c@[0]),
{
    let roots = sorted_keys(adj);
    let mut states: HashMap<u32, VisitState> = HashMap::new();
    let mut stack: Vec<u32> = Vec::new();
    let mut i: usize = 0;
    proof {
        reveal(trap_free);
        assert forall|s: Set<u32>| #[trigger] is_trap(succ_view(adj@), s) implies exists|z: u32| s.contains(z) && !visited(states@, z) by {
            let x = choose|x: u32| s.contains(x);
        }
    }
    while i < roots.len()
        invariant
            i <= roots@.len(),
            roots@.to_set() == adj@.dom(),
            dfs_inv(succ_view(adj@), states@, stack@),
            stack@.len() == 0,
            forall|j: int| 0 <= j < i ==> visited(states@, #[trigger] roots@[j]),
            crate::util::strictly_increasing(roots@),
        decreases roots@.len() - i,
    {
        let ghost st0 = states@;
        match visit(roots[i], adj, &mut states, &mut stack) {
            Ok(()) => {},
            Err(c) => {
                proof {
                    lemma_cycle_not_acyclic(succ_view(adj@), c@);
                    if single_parent(succ_view(adj@)) {
                        assert(succ_view(adj@).dom() =~= adj@.dom());
                        lemma_least_root(succ_view(adj@), st0, roots@, i as int);
                    }
                }
                return Err(c);
            },
        }
        i = i + 1;
    }
    proof {
        reveal(trap_free);
        assert forall|s: Set<u32>| !#[trigger] is_trap(succ_view(adj@), s) by {
            if is_trap(succ_view(adj@), s) {
                let z = choose|z: u32| s.contains(z) && !visited(states@, z);
                assert(has_succ_in(succ_view(adj@), s, z));
                assert(roots@.to_set().contains(z));
                let j = choose|j: int| 0 <= j < roots@.len() && roots@[j] == z;
                assert(visited(states@, roots@[j]));
            }
        }
    }
    Ok(())
}

} // verus!
