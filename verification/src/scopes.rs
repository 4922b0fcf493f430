//! Checks that every parameter dependency flows into the same plate scope or a
//! nested one: the producer's plate path must be a prefix of the consumer's.
use crate::graph_ir::{producers, GraphIR};
use crate::normalize::{lemma_node_has_path, lemma_node_path_unique, node_path_ok, normalized_ok, NormalizedPlates};
use crate::plate_errors::PlateError;
use crate::plate_validation::{first_structure_error, plate_violation, plates_well_formed};
use crate::util::sorted_keys;
use std::collections::HashMap;
use vstd::prelude::*;

verus! {

broadcast use {vstd::std_specs::hash::group_hash_axioms, vstd::seq_lib::group_seq_properties};

/// Whether `prefix` is a prefix of `path`.
pub fn is_prefix(prefix: &Vec<u32>, path: &Vec<u32>) -> (r: bool)
    ensures
        r == prefix@.is_prefix_of(path@),
{
    if prefix.len() > path.len() {
        return false;
    }
    let mut i: usize = 0;
    while i < prefix.len()
        invariant
            i <= prefix@.len() <= path@.len(),
            forall|k: int| 0 <= k < i ==> prefix@[k] == path@[k],
        decreases prefix@.len() - i,
    {
        if prefix[i] != path[i] {
            return false;
        }
        i = i + 1;
    }
    true
}

/// Every dependency of consumer `c` has a stored path that is a prefix of the
/// consumer's stored path.
pub open spec fn consumer_scoped(g: GraphIR, paths: Map<u32, Vec<u32>>, c: u32) -> bool {
    &&& paths.contains_key(c)
    &&& forall|i: int| 0 <= i < producers(g.nodes@[c]).len() ==> {
        let p = #[trigger] producers(g.nodes@[c])[i];
        paths.contains_key(p) && paths[p]@.is_prefix_of(paths[c]@)
    }
}

/// Parameter `k` of consumer `c` has a producer with a stored path that is a
/// prefix of the consumer's.
pub open spec fn param_scoped(g: GraphIR, paths: Map<u32, Vec<u32>>, c: u32, k: int) -> bool {
    let p = producers(g.nodes@[c])[k];
    paths.contains_key(p) && paths[p]@.is_prefix_of(paths[c]@)
}

/// A scope error about a producer names the first parameter of its consumer
/// that fails, in parameter order.
pub open spec fn first_bad_param(g: GraphIR, paths: Map<u32, Vec<u32>>, e: PlateError) -> bool {
    match e {
        PlateError::MissingProducer { consumer, producer } => exists|j: int| 0 <= j < producers(g.nodes@[consumer]).len()
            && #[trigger] producers(g.nodes@[consumer])[j] == producer && !param_scoped(g, paths, consumer, j)
            && forall|k: int| 0 <= k < j ==> #[trigger] param_scoped(g, paths, consumer, k),
        PlateError::InvalidDependency { producer, consumer, .. } => exists|j: int| 0 <= j < producers(g.nodes@[consumer]).len()
            && #[trigger] producers(g.nodes@[consumer])[j] == producer && !param_scoped(g, paths, consumer, j)
            && forall|k: int| 0 <= k < j ==> #[trigger] param_scoped(g, paths, consumer, k),
        _ => true,
    }
}

/// Parameter `k` of node `c` flows from a node of the graph whose plate path is
/// a prefix of the plate path of `c`.
pub open spec fn param_deps_scoped(g: GraphIR, c: u32, k: int) -> bool {
    let p = producers(g.nodes@[c])[k];
    &&& g.nodes@.contains_key(p)
    &&& forall|pp: Seq<u32>, cp: Seq<u32>| #[trigger] node_path_ok(g, p, pp) && #[trigger] node_path_ok(g, c, cp) ==> pp.is_prefix_of(cp)
}

/// A dependency error names the first parameter of its consumer that fails, in
/// parameter order.
pub open spec fn first_bad_dependency(g: GraphIR, e: PlateError) -> bool {
    match e {
        PlateError::MissingProducer { consumer, producer } => exists|j: int| 0 <= j < producers(g.nodes@[consumer]).len()
            && #[trigger] producers(g.nodes@[consumer])[j] == producer && !param_deps_scoped(g, consumer, j)
            && forall|k: int| 0 <= k < j ==> #[trigger] param_deps_scoped(g, consumer, k),
        PlateError::InvalidDependency { producer, consumer, .. } => exists|j: int| 0 <= j < producers(g.nodes@[consumer]).len()
            && #[trigger] producers(g.nodes@[consumer])[j] == producer && !param_deps_scoped(g, consumer, j)
            && forall|k: int| 0 <= k < j ==> #[trigger] param_deps_scoped(g, consumer, k),
        _ => true,
    }
}

/// With the normalized paths of a well-formed graph, the stored-path check of one
/// parameter agrees with the plate-path rule.
proof fn lemma_param_scoped_iff(g: GraphIR, np: NormalizedPlates, c: u32, k: int)
    requires
        plates_well_formed(g),
        normalized_ok(g, np),
        g.nodes@.contains_key(c),
        np.node_paths@.contains_key(c),
        0 <= k < producers(g.nodes@[c]).len(),
    ensures
        param_scoped(g, np.node_paths@, c, k) <==> param_deps_scoped(g, c, k),
{
    let paths = np.node_paths@;
    let p = producers(g.nodes@[c])[k];
    let cpath = paths[c]@;
    assert(node_path_ok(g, c, cpath));
    if param_scoped(g, paths, c, k) {
        assert(node_path_ok(g, p, paths[p]@));
        assert forall|pp: Seq<u32>, cp: Seq<u32>| #[trigger] node_path_ok(g, p, pp) && #[trigger] node_path_ok(g, c, cp)
            implies pp.is_prefix_of(cp) by {
            lemma_node_path_unique(g, c, cp, cpath);
            lemma_node_path_unique(g, p, pp, paths[p]@);
        }
    }
    if param_deps_scoped(g, c, k) {
        assert(paths.contains_key(p));
        assert(node_path_ok(g, p, paths[p]@));
    }
}

/// The first failing parameter under the stored paths is the first failing one
/// under the plate-path rule.
proof fn lemma_first_bad_dependency(g: GraphIR, np: NormalizedPlates, e: PlateError)
    requires
        plates_well_formed(g),
        normalized_ok(g, np),
        scope_violation(g, np.node_paths@, e),
        first_bad_param(g, np.node_paths@, e),
    ensures
        first_bad_dependency(g, e),
{
    let paths = np.node_paths@;
    match e {
        PlateError::MissingProducer { consumer, producer } => {
            let j = choose|j: int| 0 <= j < producers(g.nodes@[consumer]).len()
                && #[trigger] producers(g.nodes@[consumer])[j] == producer && !param_scoped(g, paths, consumer, j)
                && forall|k: int| 0 <= k < j ==> #[trigger] param_scoped(g, paths, consumer, k);
            lemma_param_scoped_iff(g, np, consumer, j);
            assert forall|k: int| 0 <= k < j implies #[trigger] param_deps_scoped(g, consumer, k) by {
                lemma_param_scoped_iff(g, np, consumer, k);
            }
        },
        PlateError::InvalidDependency { producer, consumer, .. } => {
            let j = choose|j: int| 0 <= j < producers(g.nodes@[consumer]).len()
                && #[trigger] producers(g.nodes@[consumer])[j] == producer && !param_scoped(g, paths, consumer, j)
                && forall|k: int| 0 <= k < j ==> #[trigger] param_scoped(g, paths, consumer, k);
            lemma_param_scoped_iff(g, np, consumer, j);
            assert forall|k: int| 0 <= k < j implies #[trigger] param_deps_scoped(g, consumer, k) by {
                lemma_param_scoped_iff(g, np, consumer, k);
            }
        },
        _ => {},
    }
}

/// The node whose dependencies a scope error is about.
pub open spec fn scope_error_consumer(e: PlateError) -> u32 {
    match e {
        PlateError::NoScope { node } => node,
        PlateError::MissingProducer { consumer, .. } => consumer,
        PlateError::InvalidDependency { consumer, .. } => consumer,
        _ => 0,
    }
}

/// What a scope error reports holds of the stored paths.
pub open spec fn scope_violation(g: GraphIR, paths: Map<u32, Vec<u32>>, e: PlateError) -> bool {
    match e {
        PlateError::NoScope { node } => g.nodes@.contains_key(node) && !paths.contains_key(node),
        PlateError::MissingProducer { consumer, producer } => g.nodes@.contains_key(consumer)
            && paths.contains_key(consumer) && producers(g.nodes@[consumer]).contains(producer)
            && !paths.contains_key(producer),
        PlateError::InvalidDependency { producer, producer_path, consumer, consumer_path } =>
            g.nodes@.contains_key(consumer) && producers(g.nodes@[consumer]).contains(producer)
            && paths.contains_key(consumer) && paths.contains_key(producer)
            && producer_path@ == paths[producer]@ && consumer_path@ == paths[consumer]@
            && !producer_path@.is_prefix_of(consumer_path@),
        _ => false,
    }
}

/// Every node's dependencies are scoped under the given paths.
pub open spec fn all_scoped(g: GraphIR, paths: Map<u32, Vec<u32>>) -> bool {
    forall|c: u32| #[trigger] g.nodes@.contains_key(c) ==> consumer_scoped(g, paths, c)
}

/// Each dependency of node `c` flows from a node of the graph whose plate path is a
/// prefix of the plate path of `c`.
pub open spec fn node_deps_scoped(g: GraphIR, c: u32) -> bool {
    forall|i: int, cp: Seq<u32>|
        #![trigger producers(g.nodes@[c])[i], node_path_ok(g, c, cp)]
        0 <= i < producers(g.nodes@[c]).len() && node_path_ok(g, c, cp) ==> {
            let p = producers(g.nodes@[c])[i];
            &&& g.nodes@.contains_key(p)
            &&& forall|pp: Seq<u32>| #[trigger] node_path_ok(g, p, pp) ==> pp.is_prefix_of(cp)
        }
}

/// Every dependency of the graph flows into the same plate scope or a nested one.
pub open spec fn dependencies_scoped(g: GraphIR) -> bool {
    forall|c: u32| #[trigger] g.nodes@.contains_key(c) ==> node_deps_scoped(g, c)
}

/// What a dependency error reports holds of the graph's plate paths.
pub open spec fn dependency_violation(g: GraphIR, e: PlateError) -> bool {
    match e {
        PlateError::MissingProducer { consumer, producer } => g.nodes@.contains_key(consumer)
            && producers(g.nodes@[consumer]).contains(producer) && !g.nodes@.contains_key(producer),
        PlateError::InvalidDependency { producer, producer_path, consumer, consumer_path } =>
            g.nodes@.contains_key(consumer) && producers(g.nodes@[consumer]).contains(producer)
            && node_path_ok(g, producer, producer_path@) && node_path_ok(g, consumer, consumer_path@)
            && !producer_path@.is_prefix_of(consumer_path@),
        _ => false,
    }
}

/// With the normalized paths of a well-formed graph, the stored-path check of a
/// consumer agrees with its plate-path rule.
proof fn lemma_consumer_scoped_iff(g: GraphIR, np: NormalizedPlates, c: u32)
    requires
        plates_well_formed(g),
        normalized_ok(g, np),
        g.nodes@.contains_key(c),
    ensures
        consumer_scoped(g, np.node_paths@, c) <==> node_deps_scoped(g, c),
{
    let paths = np.node_paths@;
    assert(paths.contains_key(c));
    let cpath = paths[c]@;
    assert(node_path_ok(g, c, cpath));
    if consumer_scoped(g, paths, c) {
        assert forall|i: int, cp: Seq<u32>|
            0 <= i < producers(g.nodes@[c]).len() && #[trigger] node_path_ok(g, c, cp) implies {
                let p = #[trigger] producers(g.nodes@[c])[i];
                &&& g.nodes@.contains_key(p)
                &&& forall|pp: Seq<u32>| #[trigger] node_path_ok(g, p, pp) ==> pp.is_prefix_of(cp)
            } by {
            let p = producers(g.nodes@[c])[i];
            assert(paths.contains_key(p));
            lemma_node_path_unique(g, c, cp, cpath);
            assert forall|pp: Seq<u32>| #[trigger] node_path_ok(g, p, pp) implies pp.is_prefix_of(cp) by {
                lemma_node_path_unique(g, p, pp, paths[p]@);
            }
        }
    }
    if node_deps_scoped(g, c) {
        assert forall|i: int| 0 <= i < producers(g.nodes@[c]).len() implies {
            let p = #[trigger] producers(g.nodes@[c])[i];
            paths.contains_key(p) && paths[p]@.is_prefix_of(paths[c]@)
        } by {
            let p = producers(g.nodes@[c])[i];
            assert(node_path_ok(g, c, cpath));
            assert(g.nodes@.contains_key(p));
            assert(paths.contains_key(p));
            assert(node_path_ok(g, p, paths[p]@));
        }
    }
}

/// The dependency errors of the stored-path check are violations of the plate-path rule.
proof fn lemma_scope_error_is_violation(g: GraphIR, np: NormalizedPlates, e: PlateError)
    requires
        plates_well_formed(g),
        normalized_ok(g, np),
        scope_violation(g, np.node_paths@, e),
    ensures
        dependency_violation(g, e),
{
    let paths = np.node_paths@;
    match e {
        PlateError::InvalidDependency { producer, producer_path, consumer, consumer_path } => {
            assert(node_path_ok(g, producer, paths[producer]@));
            assert(node_path_ok(g, consumer, paths[consumer]@));
        },
        _ => {},
    }
}

impl GraphIR {
    /// Checks the consumers in increasing id order, and the parameters of each in
    /// order, against the stored plate paths.
    pub fn validate_dependency_scopes(&self, normalized: &NormalizedPlates) -> (result: Result<(), PlateError>)
        ensures
            result is Ok <==> all_scoped(*self, normalized.node_paths@),
            result matches Err(e) ==> {
                &&& scope_violation(*self, normalized.node_paths@, e)
                &&& forall|c: u32| #[trigger] self.nodes@.contains_key(c) && c < scope_error_consumer(e)
                    ==> consumer_scoped(*self, normalized.node_paths@, c)
                &&& first_bad_param(*self, normalized.node_paths@, e)
            },
    {
        let ghost paths = normalized.node_paths@;
        let ids = sorted_keys(&self.nodes);
        let mut i: usize = 0;
        while i < ids.len()
            invariant
                i <= ids@.len(),
                ids@.to_set() == self.nodes@.dom(),
                crate::util::strictly_increasing(ids@),
                paths == normalized.node_paths@,
                forall|k: int| 0 <= k < i ==> consumer_scoped(*self, paths, #[trigger] ids@[k]),
            decreases ids@.len() - i,
        {
            let c = ids[i];
            proof {
                assert(ids@.to_set().contains(c));
                assert forall|d: u32| #[trigger] self.nodes@.contains_key(d) && d < c implies consumer_scoped(*self, paths, d) by {
                    assert(ids@.to_set().contains(d));
                    let k = choose|k: int| 0 <= k < ids@.len() && ids@[k] == d;
                    if k >= i {
                        assert(ids@[k] >= ids@[i as int]);
                    }
                }
            }
            let node = self.nodes.get(&c).unwrap();
            let consumer_path = match normalized.node_paths.get(&c) {
                Some(path) => path,
                None => {
                    return Err(PlateError::NoScope { node: c });
                },
            };
            let params = crate::graph_ir::node_producers(node);
            let mut j: usize = 0;
            while j < params.len()
                invariant
                    j <= params@.len(),
                    params@ == producers(self.nodes@[c]),
                    self.nodes@.contains_key(c),
                    paths == normalized.node_paths@,
                    forall|d: u32| #[trigger] self.nodes@.contains_key(d) && d < c ==> consumer_scoped(*self, paths, d),
                    paths.contains_key(c),
                    *consumer_path == paths[c],
                    forall|k: int| 0 <= k < j ==> {
                        let p = #[trigger] params@[k];
                        paths.contains_key(p) && paths[p]@.is_prefix_of(paths[c]@)
                    },
                decreases params@.len() - j,
            {
                let p = params[j];
                let producer_path = match normalized.node_paths.get(&p) {
                    Some(path) => path,
                    None => {
                        proof {
                            assert(producers(self.nodes@[c])[j as int] == p);
                            assert(!consumer_scoped(*self, paths, c));
                            assert(!param_scoped(*self, paths, c, j as int));
                            assert forall|k: int| 0 <= k < j implies #[trigger] param_scoped(*self, paths, c, k) by {
                                assert(params@[k] == producers(self.nodes@[c])[k]);
                            }
                        }
                        return Err(PlateError::MissingProducer { consumer: c, producer: p });
                    },
                };
                if !is_prefix(producer_path, consumer_path) {
                    let e = PlateError::InvalidDependency {
                        producer: p,
                        producer_path: crate::util::copy_ids(producer_path),
                        consumer: c,
                        consumer_path: crate::util::copy_ids(consumer_path),
                    };
                    proof {
                        assert(producers(self.nodes@[c])[j as int] == p);
                        assert(!consumer_scoped(*self, paths, c));
                        assert(!param_scoped(*self, paths, c, j as int));
                        assert forall|k: int| 0 <= k < j implies #[trigger] param_scoped(*self, paths, c, k) by {
                            assert(params@[k] == producers(self.nodes@[c])[k]);
                        }
                    }
                    return Err(e);
                }
                j = j + 1;
            }
            i = i + 1;
        }
        proof {
            assert forall|c: u32| #[trigger] self.nodes@.contains_key(c) implies consumer_scoped(*self, paths, c) by {
                assert(ids@.to_set().contains(c));
                let k = choose|k: int| 0 <= k < ids@.len() && ids@[k] == c;
            }
        }
        Ok(())
    }

    /// Checks the plate rules, builds the normalized plate tree and checks that
    /// every dependency flows into the same or a nested plate scope.
    pub fn validated_plates(&self) -> (result: Result<NormalizedPlates, PlateError>)
        ensures
            result is Ok <==> plates_well_formed(*self) && dependencies_scoped(*self),
            result matches Ok(np) ==> normalized_ok(*self, np) && all_scoped(*self, np.node_paths@),
            result matches Err(e) ==> {
                if plates_well_formed(*self) {
                    &&& dependency_violation(*self, e)
                    &&& forall|c: u32| #[trigger] self.nodes@.contains_key(c) && c < scope_error_consumer(e)
                        ==> node_deps_scoped(*self, c)
                    &&& first_bad_dependency(*self, e)
                } else {
                    plate_violation(*self, e) && first_structure_error(*self, e)
                }
            },
    {
        let normalized = match self.normalize_plates() {
            Ok(np) => np,
            Err(e) => { return Err(e); },
        };
        let checked = self.validate_dependency_scopes(&normalized);
        proof {
            assert forall|c: u32| #[trigger] self.nodes@.contains_key(c) implies
                (consumer_scoped(*self, normalized.node_paths@, c) <==> node_deps_scoped(*self, c)) by {
                lemma_consumer_scoped_iff(*self, normalized, c);
            }
        }
        match checked {
            Ok(()) => Ok(normalized),
            Err(e) => {
                proof {
                    lemma_scope_error_is_violation(*self, normalized, e);
                    assert(!dependencies_scoped(*self));
                    lemma_first_bad_dependency(*self, normalized, e);
                }
                Err(e)
            },
        }
    }

    /// Validates plate containment and all parameter dependencies between scopes.
    /// A dependency is valid when the producer's plate path is a prefix of the
    /// consumer's path: values flow into the same scope or a nested one, never out
    /// of a plate or across sibling plates.
    pub fn validate_plate_semantics(&self) -> (result: Result<(), PlateError>)
        ensures
            result is Ok <==> plates_well_formed(*self) && dependencies_scoped(*self),
            result matches Err(e) ==> {
                if plates_well_formed(*self) {
                    &&& dependency_violation(*self, e)
                    &&& forall|c: u32| #[trigger] self.nodes@.contains_key(c) && c < scope_error_consumer(e)
                        ==> node_deps_scoped(*self, c)
                    &&& first_bad_dependency(*self, e)
                } else {
                    plate_violation(*self, e) && first_structure_error(*self, e)
                }
            },
    {
        match self.validated_plates() {
            Ok(_) => Ok(()),
            Err(e) => Err(e),
        }
    }
}

} // verus!
