//! The reduced view of a graph: only random nodes, each linked from the nearest
//! random nodes it depends on through compute nodes.
use std::collections::HashMap;
use vstd::prelude::*;

verus! {

broadcast use {vstd::std_specs::hash::group_hash_axioms, vstd::set::group_set_axioms, vstd::set_lib::group_set_lib_default};

/// What the reduced view reads of one node: the nodes linked to the parameters of
/// a random or compute node (`None` for an unlinked parameter); a scalar has none.
#[derive(Debug)]
pub enum LinkNode {
    Random { params: Vec<Option<u64>> },
    Compute { params: Vec<Option<u64>> },
    Scalar,
}

/// The nodes not yet being searched.
pub open spec fn search_measure(nodes: Map<u64, LinkNode>, visiting: Set<u64>) -> nat {
    nodes.dom().difference(visiting).len()
}

/// The random nodes reached from `e` through compute nodes only, without passing
/// a node twice on one path: `e` itself if it is random.
pub open spec fn nearest(nodes: Map<u64, LinkNode>, e: u64, visiting: Set<u64>) -> Set<u64>
    decreases search_measure(nodes, visiting), 0nat,
{
    if visiting.contains(e) || !nodes.contains_key(e) || !nodes.dom().finite() {
        Set::empty()
    } else {
        match nodes[e] {
            LinkNode::Random { .. } => set![e],
            LinkNode::Scalar => Set::empty(),
            LinkNode::Compute { params } => {
                proof {
                    assert(nodes.dom().difference(visiting.insert(e)) =~= nodes.dom().difference(visiting).remove(e));
                }
                params_nearest(nodes, params@, visiting.insert(e), params@.len() as int)
            },
        }
    }
}

/// The random nodes reached from the first `end` parameters.
pub open spec fn params_nearest(nodes: Map<u64, LinkNode>, params: Seq<Option<u64>>, visiting: Set<u64>, end: int) -> Set<u64>
    decreases search_measure(nodes, visiting), end + 1,
{
    if end <= 0 {
        Set::empty()
    } else {
        params_nearest(nodes, params, visiting, end - 1) + match params[end - 1] {
            Some(s) => nearest(nodes, s, visiting),
            None => Set::empty(),
        }
    }
}

/// Whether `x` is among the ids.
fn listed(ids: &Vec<u64>, x: u64) -> (r: bool)
    ensures
        r == ids@.contains(x),
{
    let mut i: usize = 0;
    while i < ids.len()
        invariant
            i <= ids@.len(),
            forall|q: int| 0 <= q < i ==> ids@[q] != x,
        decreases ids@.len() - i,
    {
        if ids[i] == x {
            return true;
        }
        i = i + 1;
    }
    false
}

fn collect(nodes: &HashMap<u64, LinkNode>, e: u64, visiting: Vec<u64>, found: &mut Vec<u64>) -> (rest: Vec<u64>)
    ensures
        final(found)@.to_set() == old(found)@.to_set() + nearest(nodes@, e, visiting@.to_set()),
        rest@ == visiting@,
    decreases search_measure(nodes@, visiting@.to_set()), 0nat,
{
    let mut visiting = visiting;
    let ghost vis = visiting@.to_set();
    if listed(&visiting, e) {
        proof { assert(found@.to_set() + Set::<u64>::empty() =~= found@.to_set()); }
        return visiting;
    }
    match nodes.get(&e) {
        None => {
            proof { assert(found@.to_set() + Set::<u64>::empty() =~= found@.to_set()); }
            visiting
        },
        Some(LinkNode::Scalar) => {
            proof { assert(found@.to_set() + Set::<u64>::empty() =~= found@.to_set()); }
            visiting
        },
        Some(LinkNode::Random { .. }) => {
            let ghost before = found@;
            found.push(e);
            proof {
                before.lemma_push_to_set_commute(e);
                assert(found@.to_set() =~= before.to_set() + set![e]);
            }
            visiting
        },
        Some(LinkNode::Compute { params }) => {
            let ghost before = visiting@;
            visiting.push(e);
            proof {
                before.lemma_push_to_set_commute(e);
                assert(visiting@ == before.push(e));
                assert(visiting@.to_set() =~= vis.insert(e));
                assert(nodes@.dom().difference(vis.insert(e)) =~= nodes@.dom().difference(vis).remove(e));
            }
            let mut rest = collect_params(nodes, params, visiting, found);
            rest.pop();
            proof { assert(rest@ =~= before); }
            rest
        },
    }
}

fn collect_params(nodes: &HashMap<u64, LinkNode>, params: &Vec<Option<u64>>, entry: Vec<u64>, found: &mut Vec<u64>) -> (rest: Vec<u64>)
    ensures
        final(found)@.to_set() == old(found)@.to_set() + params_nearest(nodes@, params@, entry@.to_set(), params@.len() as int),
        rest@ == entry@,
    decreases search_measure(nodes@, entry@.to_set()), params@.len() + 1,
{
    let ghost vis = entry@;
    let ghost start = found@.to_set();
    let mut visiting = entry;
    let mut k: usize = 0;
    proof { assert(start + Set::<u64>::empty() =~= start); }
    while k < params.len()
        invariant
            k <= params@.len(),
            visiting@ == vis,
            vis == entry@,
            found@.to_set() == start + params_nearest(nodes@, params@, vis.to_set(), k as int),
        decreases params@.len() - k,
    {
        let ghost prior = found@.to_set();
        match params[k] {
            Some(s) => {
                visiting = collect(nodes, s, visiting, found);
                proof {
                    assert(found@.to_set() =~= start + params_nearest(nodes@, params@, vis.to_set(), k + 1));
                }
            },
            None => {
                proof {
                    assert(found@.to_set() =~= start + params_nearest(nodes@, params@, vis.to_set(), k + 1));
                }
            },
        }
        k = k + 1;
    }
    visiting
}

/// The random nodes reached from `e` through compute nodes, each once.
pub fn collect_nearest_randoms(nodes: &HashMap<u64, LinkNode>, e: u64) -> (found: Vec<u64>)
    ensures
        found@.to_set() == nearest(nodes@, e, Set::empty()),
{
    let mut found: Vec<u64> = Vec::new();
    let visiting: Vec<u64> = Vec::new();
    proof { assert(visiting@.to_set() =~= Set::<u64>::empty()); }
    let _ = collect(nodes, e, visiting, &mut found);
    proof { assert(Seq::<u64>::empty().to_set() + nearest(nodes@, e, Set::empty()) =~= nearest(nodes@, e, Set::empty())); }
    found
}

/// The link from `s` to random node `t` is drawn in the reduced view: `t` is one of
/// the targets, and `s` is a random node other than `t` reached from one of `t`'s
/// parameters through compute nodes.
pub open spec fn reduced_link(nodes: Map<u64, LinkNode>, targets: Seq<u64>, s: u64, t: u64) -> bool {
    &&& targets.contains(t)
    &&& s != t
    &&& nodes.contains_key(t)
    &&& match nodes[t] {
        LinkNode::Random { params } => exists|j: int| 0 <= j < params@.len() && param_reaches(nodes, #[trigger] params@[j], s),
        _ => false,
    }
}

/// The parameter is linked to a node from which random node `s` is nearest.
pub open spec fn param_reaches(nodes: Map<u64, LinkNode>, p: Option<u64>, s: u64) -> bool {
    match p {
        Some(src) => nearest(nodes, src, Set::empty()).contains(s),
        None => false,
    }
}

/// The links of the reduced view, each once: from each random node among
/// `targets` back to the nearest random nodes its parameters depend on.
pub fn spawn_reduced_links(nodes: &HashMap<u64, LinkNode>, targets: &Vec<u64>) -> (links: Vec<(u64, u64)>)
    ensures
        links@.no_duplicates(),
        forall|s: u64, t: u64| #[trigger] links@.contains((s, t)) <==> reduced_link(nodes@, targets@, s, t),
{
    let mut links: Vec<(u64, u64)> = Vec::new();
    let mut i: usize = 0;
    while i < targets.len()
        invariant
            i <= targets@.len(),
            links@.no_duplicates(),
            forall|s: u64, t: u64| #[trigger] links@.contains((s, t)) <==> reduced_link(nodes@, targets@.take(i as int), s, t),
        decreases targets@.len() - i,
    {
        let t = targets[i];
        let ghost before = links@;
        proof {
            assert forall|s: u64, u: u64| reduced_link(nodes@, targets@.take(i as int), s, u)
                implies reduced_link(nodes@, targets@.take(i + 1), s, u) by {
                if targets@.take(i as int).contains(u) {
                    let q = choose|q: int| 0 <= q < i && #[trigger] targets@.take(i as int)[q] == u;
                    assert(targets@.take(i + 1)[q] == u);
                }
            }
        }
        match nodes.get(&t) {
            Some(LinkNode::Random { params }) => {
                let mut j: usize = 0;
                while j < params.len()
                    invariant
                        i < targets@.len(),
                        t == targets@[i as int],
                        nodes@.contains_key(t),
                        nodes@[t] == (LinkNode::Random { params: *params }),
                        j <= params@.len(),
                        links@.no_duplicates(),
                        forall|s: u64, u: u64| #[trigger] links@.contains((s, u)) <==> (reduced_link(nodes@, targets@.take(i as int), s, u)
                            || (u == t && s != t && exists|q: int| 0 <= q < j && param_reaches(nodes@, #[trigger] params@[q], s))),
                    decreases params@.len() - j,
                {
                    match params[j] {
                        Some(src) => {
                            let found = collect_nearest_randoms(nodes, src);
                            let mut m: usize = 0;
                            while m < found.len()
                                invariant
                                    i < targets@.len(),
                                    t == targets@[i as int],
                                    j < params@.len(),
                                    params@[j as int] == Some(src),
                                    found@.to_set() == nearest(nodes@, src, Set::empty()),
                                    m <= found@.len(),
                                    links@.no_duplicates(),
                                    forall|s: u64, u: u64| #[trigger] links@.contains((s, u)) <==> (reduced_link(nodes@, targets@.take(i as int), s, u)
                                        || (u == t && s != t && exists|q: int| 0 <= q < j && param_reaches(nodes@, #[trigger] params@[q], s))
                                        || (u == t && s != t && found@.take(m as int).contains(s))),
                                decreases found@.len() - m,
                            {
                                let s = found[m];
                                let ghost prior = links@;
                                if s != t && !pair_listed(&links, s, t) {
                                    links.push((s, t));
                                    proof {
                                        assert forall|a: int, b: int| 0 <= a < b < links@.len() implies links@[a] != links@[b] by {
                                            if b == prior.len() {
                                                assert(links@[a] == prior[a]);
                                                assert(prior.contains(prior[a]));
                                            }
                                        }
                                    }
                                }
                                proof {
                                    assert(found@.take(m + 1) =~= found@.take(m as int).push(s));
                                    assert forall|x: u64, u: u64| #[trigger] links@.contains((x, u)) <==> (reduced_link(nodes@, targets@.take(i as int), x, u)
                                        || (u == t && x != t && exists|q: int| 0 <= q < j && param_reaches(nodes@, #[trigger] params@[q], x))
                                        || (u == t && x != t && found@.take(m + 1).contains(x))) by {
                                        if links@.contains((x, u)) && !prior.contains((x, u)) {
                                            assert(links@.last() == (s, t));
                                            let w = choose|w: int| 0 <= w < links@.len() && links@[w] == (x, u);
                                            if w < prior.len() { assert(prior[w] == links@[w]); }
                                            assert(found@.take(m + 1)[m as int] == s);
                                        }
                                        if prior.contains((x, u)) {
                                            let w = choose|w: int| 0 <= w < prior.len() && prior[w] == (x, u);
                                            assert(links@[w] == prior[w]);
                                        }
                                        if u == t && x != t && found@.take(m + 1).contains(x) && !found@.take(m as int).contains(x) {
                                            let w = choose|w: int| 0 <= w < m + 1 && #[trigger] found@.take(m + 1)[w] == x;
                                            if w < m { assert(found@.take(m as int)[w] == x); }
                                            assert(x == s);
                                            if !prior.contains((s, t)) {
                                                assert(links@[prior.len() as int] == (s, t));
                                            }
                                        }
                                    }
                                }
                                m = m + 1;
                            }
                            proof {
                                assert(found@.take(found@.len() as int) =~= found@);
                                assert forall|x: u64, u: u64| #[trigger] links@.contains((x, u)) <==> (reduced_link(nodes@, targets@.take(i as int), x, u)
                                    || (u == t && x != t && exists|q: int| 0 <= q < j + 1 && param_reaches(nodes@, #[trigger] params@[q], x))) by {
                                    if u == t && x != t && found@.contains(x) {
                                        assert(found@.to_set().contains(x));
                                        assert(param_reaches(nodes@, params@[j as int], x));
                                    }
                                    if u == t && x != t && (exists|q: int| 0 <= q < j + 1 && param_reaches(nodes@, #[trigger] params@[q], x)) {
                                        let q = choose|q: int| 0 <= q < j + 1 && param_reaches(nodes@, #[trigger] params@[q], x);
                                        if q == j {
                                            assert(found@.to_set().contains(x));
                                        }
                                    }
                                }
                            }
                        },
                        None => {},
                    }
                    j = j + 1;
                }
                proof {
                    assert forall|s: u64, u: u64| #[trigger] links@.contains((s, u)) <==> reduced_link(nodes@, targets@.take(i + 1), s, u) by {
                        if reduced_link(nodes@, targets@.take(i + 1), s, u) && u != t {
                            let q = choose|q: int| 0 <= q < i + 1 && #[trigger] targets@.take(i + 1)[q] == u;
                            assert(targets@.take(i as int)[q] == u);
                        }
                        if u == t {
                            assert(targets@.take(i + 1)[i as int] == t);
                        }
                    }
                }
            },
            _ => {
                proof {
                    assert forall|s: u64, u: u64| #[trigger] links@.contains((s, u)) <==> reduced_link(nodes@, targets@.take(i + 1), s, u) by {
                        if reduced_link(nodes@, targets@.take(i + 1), s, u) {
                            if u == t {
                            } else {
                                let q = choose|q: int| 0 <= q < i + 1 && #[trigger] targets@.take(i + 1)[q] == u;
                                assert(targets@.take(i as int)[q] == u);
                            }
                        }
                    }
                }
            },
        }
        i = i + 1;
    }
    proof { assert(targets@.take(targets@.len() as int) =~= targets@); }
    links
}

/// Whether the pair is among the links.
fn pair_listed(links: &Vec<(u64, u64)>, s: u64, t: u64) -> (r: bool)
    ensures
        r == links@.contains((s, t)),
{
    let mut i: usize = 0;
    while i < links.len()
        invariant
            i <= links@.len(),
            forall|q: int| 0 <= q < i ==> links@[q] != (s, t),
        decreases links@.len() - i,
    {
        if links[i].0 == s && links[i].1 == t {
            return true;
        }
        i = i + 1;
    }
    false
}

} // verus!
