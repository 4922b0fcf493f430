//! The decisions of a cancellable inference run: when to take a warmup step or a
//! posterior draw, what a draw adds to the retained results, and when the run is
//! complete. Whoever drives the run performs the steps themselves.
use crate::graph_ir::GraphIR;
use crate::inference::InferenceResult;
use crate::model_values::ModelResult;
use crate::text::{decimal, push_decimal, push_str};
use std::collections::HashMap;
use vstd::prelude::*;

verus! {

broadcast use {vstd::std_specs::hash::group_hash_axioms, vstd::seq_lib::group_seq_properties};

/// A completed or cancelled inference run.
pub struct ControlledInferenceResult {
    pub result: InferenceResult,
    pub cancelled: bool,
}

/// What the driver of a run does next.
#[derive(Clone, Copy, Debug, PartialEq, Eq, Structural)]
pub enum RunStep {
    /// One warmup step, whose values are discarded.
    Warmup,
    /// Posterior draw `draw_index`, whose values are retained.
    Sample { draw_index: usize },
    /// The run is over.
    Done,
}

/// The state of an inference run.
pub struct InferenceRun {
    pub seed: u64,
    pub n_samples: usize,
    pub n_warmup: usize,
    /// Warmup steps completed so far.
    pub completed_warmup: usize,
    /// The values of every retained draw, by node.
    pub samples_by_node: HashMap<u32, Vec<ModelResult>>,
    /// The trace of every retained draw.
    pub traces: Vec<fugue::Trace>,
    pub cancelled: bool,
    pub finished: bool,
    /// The values each retained draw gave, by node, in draw order.
    pub draws: Ghost<Seq<Map<u32, ModelResult>>>,
}

/// The values that the first `end` draws gave node `n`, in draw order, skipping
/// draws without a value for it.
pub open spec fn node_draws(draws: Seq<Map<u32, ModelResult>>, n: u32, end: int) -> Seq<ModelResult>
    decreases end,
{
    if end <= 0 {
        Seq::empty()
    } else if draws[end - 1].contains_key(n) {
        node_draws(draws, n, end - 1).push(draws[end - 1][n])
    } else {
        node_draws(draws, n, end - 1)
    }
}

proof fn lemma_node_draws_prefix(a: Seq<Map<u32, ModelResult>>, b: Seq<Map<u32, ModelResult>>, n: u32, end: int)
    requires
        end <= b.len(),
        end <= a.len(),
        forall|k: int| 0 <= k < end ==> a[k] == b[k],
    ensures
        node_draws(a, n, end) == node_draws(b, n, end),
    decreases end,
{
    if end > 0 {
        lemma_node_draws_prefix(a, b, n, end - 1);
    }
}

/// When every one of the first `end` draws has a value for node `n`, those are
/// the node's values, in draw order.
pub proof fn lemma_node_draws_all(draws: Seq<Map<u32, ModelResult>>, n: u32, end: int)
    requires
        0 <= end <= draws.len(),
        forall|k: int| 0 <= k < end ==> (#[trigger] draws[k]).contains_key(n),
    ensures
        node_draws(draws, n, end).len() == end,
        forall|k: int| 0 <= k < end ==> #[trigger] node_draws(draws, n, end)[k] == draws[k][n],
    decreases end,
{
    if end > 0 {
        lemma_node_draws_all(draws, n, end - 1);
        assert(draws[end - 1].contains_key(n));
    }
}

/// When node `n` has a value from each of the first `end` draws, value `k` is
/// the one draw `k` gave.
pub proof fn lemma_full_node_draws(draws: Seq<Map<u32, ModelResult>>, n: u32, end: int)
    requires
        0 <= end <= draws.len(),
        node_draws(draws, n, end).len() == end,
    ensures
        forall|k: int| 0 <= k < end ==> #[trigger] draws[k].contains_key(n) && node_draws(draws, n, end)[k] == draws[k][n],
    decreases end,
{
    if end > 0 {
        lemma_node_draws_len(draws, n, end - 1);
        if draws[end - 1].contains_key(n) {
            lemma_full_node_draws(draws, n, end - 1);
        }
    }
}

proof fn lemma_node_draws_len(draws: Seq<Map<u32, ModelResult>>, n: u32, end: int)
    ensures
        node_draws(draws, n, end).len() <= if end < 0 { 0 } else { end },
    decreases end,
{
    if end > 0 {
        lemma_node_draws_len(draws, n, end - 1);
    }
}

/// The error text when no sample is requested.
pub open spec fn no_samples_message() -> Seq<char> {
    "number of samples must be greater than zero"@
}

impl InferenceRun {
    /// The invariant of a run: warmup and draws stay within what was asked, and
    /// draws start only after the warmup is complete unless the run was cancelled.
    pub open spec fn well_formed(&self) -> bool {
        &&& self.n_samples > 0
        &&& self.completed_warmup <= self.n_warmup
        &&& self.traces@.len() <= self.n_samples
        &&& self.traces@.len() > 0 ==> self.completed_warmup == self.n_warmup
        &&& forall|n: u32| #[trigger] self.samples_by_node@.contains_key(n) ==> self.samples_by_node@[n]@.len() <= self.traces@.len()
        &&& self.finished && !self.cancelled ==> self.traces@.len() == self.n_samples
        &&& self.draws@.len() == self.traces@.len()
        &&& forall|n: u32| #[trigger] self.samples_by_node@.contains_key(n) ==> self.samples_by_node@[n]@
            == node_draws(self.draws@, n, self.draws@.len() as int)
        &&& forall|n: u32| !self.samples_by_node@.contains_key(n) ==> #[trigger] node_draws(self.draws@, n, self.draws@.len() as int).len() == 0
        &&& forall|k: int| 0 <= k < self.draws@.len() ==> (#[trigger] self.draws@[k]).dom() == self.samples_by_node@.dom()
        &&& self.draws@.len() == 0 ==> self.samples_by_node@.dom() == Set::<u32>::empty()
    }

    /// A run that asks for `n_samples` draws after `n_warmup` warmup steps.
    pub fn start(seed: u64, n_samples: usize, n_warmup: usize) -> (result: Result<InferenceRun, String>)
        ensures
            result is Ok <==> n_samples > 0,
            result matches Ok(run) ==> {
                &&& run.well_formed()
                &&& run.seed == seed && run.n_samples == n_samples && run.n_warmup == n_warmup
                &&& run.completed_warmup == 0 && run.traces@.len() == 0 && run.samples_by_node@.len() == 0
                &&& !run.cancelled && !run.finished
            },
            result matches Err(msg) ==> msg@ == no_samples_message(),
    {
        if n_samples == 0 {
            let mut msg = String::new();
            push_str(&mut msg, "number of samples must be greater than zero");
            proof { reveal_strlit("number of samples must be greater than zero"); }
            return Err(msg);
        }
        Ok(InferenceRun {
            seed,
            n_samples,
            n_warmup,
            completed_warmup: 0,
            samples_by_node: HashMap::new(),
            traces: Vec::new(),
            cancelled: false,
            finished: false,
            draws: Ghost(Seq::empty()),
        })
    }

    /// The next step, given whether cancellation was requested since the last
    /// step. Cancellation ends the run before the step; a run ends by itself once
    /// all draws are retained.
    pub fn next_step(&mut self, cancel_requested: bool) -> (step: RunStep)
        requires
            old(self).well_formed(),
        ensures
            final(self).well_formed(),
            final(self).seed == old(self).seed,
            final(self).n_samples == old(self).n_samples,
            final(self).n_warmup == old(self).n_warmup,
            final(self).completed_warmup == old(self).completed_warmup,
            final(self).traces@ == old(self).traces@,
            final(self).samples_by_node@ == old(self).samples_by_node@,
            old(self).finished ==> step == RunStep::Done && final(self).cancelled == old(self).cancelled && final(self).finished,
            !old(self).finished ==> {
                &&& step == if cancel_requested {
                    RunStep::Done
                } else if old(self).completed_warmup < old(self).n_warmup {
                    RunStep::Warmup
                } else if old(self).traces@.len() < old(self).n_samples {
                    RunStep::Sample { draw_index: old(self).traces@.len() as usize }
                } else {
                    RunStep::Done
                }
                &&& final(self).cancelled == (old(self).cancelled || (cancel_requested))
                &&& final(self).finished == (step == RunStep::Done)
            },
    {
        if self.finished {
            return RunStep::Done;
        }
        if cancel_requested {
            self.cancelled = true;
            self.finished = true;
            return RunStep::Done;
        }
        if self.completed_warmup < self.n_warmup {
            return RunStep::Warmup;
        }
        if self.traces.len() < self.n_samples {
            return RunStep::Sample { draw_index: self.traces.len() };
        }
        self.finished = true;
        RunStep::Done
    }

    /// Records that a warmup step completed; returns the number completed so far.
    pub fn warmup_done(&mut self) -> (completed: usize)
        requires
            old(self).well_formed(),
            !old(self).finished,
            old(self).completed_warmup < old(self).n_warmup,
        ensures
            final(self).well_formed(),
            completed == old(self).completed_warmup + 1,
            final(self).completed_warmup == completed,
            final(self).seed == old(self).seed,
            final(self).n_samples == old(self).n_samples,
            final(self).n_warmup == old(self).n_warmup,
            final(self).traces@ == old(self).traces@,
            final(self).samples_by_node@ == old(self).samples_by_node@,
            final(self).cancelled == old(self).cancelled,
            final(self).finished == old(self).finished,
    {
        self.completed_warmup = self.completed_warmup + 1;
        self.completed_warmup
    }

    /// Retains posterior draw `draw_index`: its values and its trace. A draw whose
    /// execution failed ends the run with the error.
    pub fn record_draw(&mut self, draw_index: usize, values: Result<HashMap<u32, ModelResult>, String>, trace: fugue::Trace)
        -> (result: Result<(), String>)
        requires
            old(self).well_formed(),
            !old(self).finished,
            old(self).completed_warmup == old(self).n_warmup,
            draw_index == old(self).traces@.len(),
            draw_index < old(self).n_samples,
            old(self).traces@.len() > 0 && values is Ok ==> values->Ok_0@.dom() == old(self).samples_by_node@.dom(),
        ensures
            final(self).well_formed(),
            final(self).seed == old(self).seed,
            final(self).n_samples == old(self).n_samples,
            final(self).n_warmup == old(self).n_warmup,
            final(self).completed_warmup == old(self).completed_warmup,
            final(self).cancelled == old(self).cancelled,
            final(self).finished == old(self).finished,
            result is Ok <==> values is Ok,
            result matches Err(msg) ==> values matches Err(e) && msg@ == "inference execution "@ + decimal(draw_index as nat + 1)
                + " failed: "@ + e@,
            result is Ok ==> {
                &&& final(self).traces@ == old(self).traces@.push(trace)
                &&& forall|n: u32| #[trigger] final(self).samples_by_node@.contains_key(n)
                    <==> old(self).samples_by_node@.contains_key(n) || values->Ok_0@.contains_key(n)
                &&& forall|n: u32| #[trigger] final(self).samples_by_node@.contains_key(n) ==> final(self).samples_by_node@[n]@ == (
                    if values->Ok_0@.contains_key(n) {
                        (if old(self).samples_by_node@.contains_key(n) { old(self).samples_by_node@[n]@ } else { Seq::empty() }).push(values->Ok_0@[n])
                    } else {
                        old(self).samples_by_node@[n]@
                    })
            },
    {
        let mut values = match values {
            Ok(v) => v,
            Err(e) => {
                let mut msg = String::new();
                push_str(&mut msg, "inference execution ");
                push_decimal(&mut msg, draw_index as u64 + 1);
                push_str(&mut msg, " failed: ");
                push_str(&mut msg, e.as_str());
                proof { reveal_strlit("inference execution "); reveal_strlit(" failed: "); }
                return Err(msg);
            },
        };
        let ghost given = values@;
        let ghost before = self.samples_by_node@;
        let ghost n_traces = self.traces@.len();
        let ids = crate::util::sorted_keys(&values);
        let mut i: usize = 0;
        while i < ids.len()
            invariant
                i <= ids@.len(),
                ids@.to_set() == given.dom(),
                crate::util::strictly_increasing(ids@),
                n_traces == self.traces@.len(),
                n_traces < self.n_samples,
                self.seed == old(self).seed,
                self.n_samples == old(self).n_samples,
                self.n_warmup == old(self).n_warmup,
                self.completed_warmup == old(self).completed_warmup,
                self.cancelled == old(self).cancelled,
                self.finished == old(self).finished,
                self.traces@ == old(self).traces@,
                self.draws@ == old(self).draws@,
                !self.finished,
                self.n_samples > 0,
                self.completed_warmup <= self.n_warmup,
                self.completed_warmup == self.n_warmup,
                forall|n: u32| #[trigger] values@.contains_key(n) <==> given.contains_key(n) && !ids@.take(i as int).contains(n),
                forall|n: u32| #[trigger] values@.contains_key(n) ==> values@[n] == given[n],
                forall|n: u32| #[trigger] self.samples_by_node@.contains_key(n)
                    <==> before.contains_key(n) || ids@.take(i as int).contains(n),
                forall|n: u32| #[trigger] self.samples_by_node@.contains_key(n) ==> self.samples_by_node@[n]@ == (
                    if ids@.take(i as int).contains(n) {
                        (if before.contains_key(n) { before[n]@ } else { Seq::empty() }).push(given[n])
                    } else {
                        before[n]@
                    }),
                forall|n: u32| #[trigger] before.contains_key(n) ==> before[n]@.len() <= n_traces,
            decreases ids@.len() - i,
        {
            let n = ids[i];
            proof {
                assert(ids@.to_set().contains(n));
                assert(!ids@.take(i as int).contains(n)) by {
                    if ids@.take(i as int).contains(n) {
                        let k = choose|k: int| 0 <= k < i && ids@.take(i as int)[k] == n;
                        assert(ids@[k] < ids@[i as int]);
                    }
                }
            }
            let value = values.remove(&n).unwrap();
            let mut list = match self.samples_by_node.remove(&n) {
                Some(list) => list,
                None => Vec::new(),
            };
            list.push(value);
            self.samples_by_node.insert(n, list);
            proof {
                assert(ids@.take(i + 1) =~= ids@.take(i as int).push(n));
            }
            i = i + 1;
        }
        self.traces.push(trace);
        proof {
            assert(ids@.take(ids@.len() as int) =~= ids@);
            assert forall|n: u32| given.contains_key(n) implies #[trigger] ids@.contains(n) by {
                assert(ids@.to_set().contains(n));
            }
        }
        let ghost old_draws = self.draws@;
        self.draws = Ghost(old_draws.push(given));
        proof {
            let d = self.draws@;
            let len = d.len() as int;
            assert forall|n: u32| #[trigger] node_draws(d, n, len) == if given.contains_key(n) {
                node_draws(old_draws, n, len - 1).push(given[n])
            } else {
                node_draws(old_draws, n, len - 1)
            } by {
                assert(d[len - 1] == given);
                assert(d.drop_last() =~= old_draws);
                lemma_node_draws_prefix(d, old_draws, n, len - 1);
            }
            assert forall|n: u32| #[trigger] self.samples_by_node@.contains_key(n) implies self.samples_by_node@[n]@
                == node_draws(d, n, len) by {
                assert(node_draws(d, n, len) == node_draws(d, n, len));
                if !before.contains_key(n) {
                    assert(node_draws(old_draws, n, len - 1) =~= Seq::<ModelResult>::empty());
                }
            }
            assert forall|n: u32| !self.samples_by_node@.contains_key(n) implies #[trigger] node_draws(d, n, len).len() == 0 by {
                assert(node_draws(d, n, len) == node_draws(d, n, len));
            }
            assert(self.samples_by_node@.dom() =~= given.dom()) by {
                assert forall|n: u32| #[trigger] self.samples_by_node@.dom().contains(n) <==> given.dom().contains(n) by {
                    if before.contains_key(n) {
                        assert(old_draws.len() > 0);
                        assert(old_draws[0].dom() == before.dom());
                    }
                }
            }
            assert forall|k: int| 0 <= k < d.len() implies (#[trigger] d[k]).dom() == self.samples_by_node@.dom() by {
                if k < len - 1 {
                    assert(d[k] == old_draws[k]);
                    assert(old_draws[k].dom() == before.dom());
                }
            }
        }
        Ok(())
    }

    /// The result of a finished run. A run that was not cancelled must have
    /// retained every draw for every node of `graph`; the nodes are checked in
    /// increasing id order. Whether or not the run was cancelled, every node with
    /// values has one value per retained draw, and its value `k` is the one draw
    /// `k` gave; draws are retained only after the whole warmup.
    pub fn finish(self, graph: &GraphIR) -> (result: Result<ControlledInferenceResult, String>)
        requires
            self.well_formed(),
            self.finished,
        ensures
            result is Ok <==> self.cancelled || forall|n: u32| #[trigger] graph.nodes@.contains_key(n)
                ==> self.samples_by_node@.contains_key(n) && self.samples_by_node@[n]@.len() == self.n_samples,
            result matches Ok(r) ==> {
                &&& r.cancelled == self.cancelled
                &&& r.result.seed == self.seed
                &&& r.result.n_samples == self.traces@.len()
                &&& r.result.n_warmup == self.completed_warmup
                &&& r.result.samples_by_node@ == self.samples_by_node@
                &&& r.result.traces@ == self.traces@
                &&& !self.cancelled ==> r.result.n_samples == self.n_samples
                &&& r.result.n_samples == self.draws@.len()
                &&& r.result.n_samples <= self.n_samples
                &&& r.result.n_warmup <= self.n_warmup
                &&& r.result.n_warmup < self.n_warmup ==> r.result.n_samples == 0
                &&& forall|n: u32| #[trigger] r.result.samples_by_node@.contains_key(n)
                    ==> r.result.samples_by_node@[n]@.len() == r.result.n_samples
                    && forall|k: int| 0 <= k < r.result.n_samples ==> #[trigger] self.draws@[k].contains_key(n)
                        && r.result.samples_by_node@[n]@[k] == self.draws@[k][n]
                &&& !self.cancelled ==> forall|n: u32, k: int| #[trigger] graph.nodes@.contains_key(n) && 0 <= k < self.n_samples
                    ==> #[trigger] self.draws@[k].contains_key(n) && r.result.samples_by_node@[n]@[k] == self.draws@[k][n]
            },
            result matches Err(msg) ==> exists|n: u32| #[trigger] graph.nodes@.contains_key(n) && !self.cancelled && {
                let count = if self.samples_by_node@.contains_key(n) { self.samples_by_node@[n]@.len() } else { 0 };
                &&& count != self.n_samples
                &&& msg@ == "inference retained "@ + decimal(count) + " of "@ + decimal(self.n_samples as nat)
                    + " draws for node "@ + decimal(n as nat)
            },
    {
        if !self.cancelled {
            let ids = crate::util::sorted_keys(&graph.nodes);
            let mut i: usize = 0;
            while i < ids.len()
                invariant
                    i <= ids@.len(),
                    ids@.to_set() == graph.nodes@.dom(),
                    self.n_samples > 0,
                    !self.cancelled,
                    forall|k: int| 0 <= k < i ==> self.samples_by_node@.contains_key(#[trigger] ids@[k])
                        && self.samples_by_node@[ids@[k]]@.len() == self.n_samples,
                decreases ids@.len() - i,
            {
                let n = ids[i];
                let count: usize = match self.samples_by_node.get(&n) {
                    Some(list) => list.len(),
                    None => 0,
                };
                if count != self.n_samples {
                    let mut msg = String::new();
                    push_str(&mut msg, "inference retained ");
                    push_decimal(&mut msg, count as u64);
                    push_str(&mut msg, " of ");
                    push_decimal(&mut msg, self.n_samples as u64);
                    push_str(&mut msg, " draws for node ");
                    push_decimal(&mut msg, n as u64);
                    proof {
                        reveal_strlit("inference retained ");
                        reveal_strlit(" of ");
                        reveal_strlit(" draws for node ");
                        assert(ids@.to_set().contains(n));
                        let c = if self.samples_by_node@.contains_key(n) { self.samples_by_node@[n]@.len() } else { 0 };
                        assert(c == count);
                        assert(!(self.samples_by_node@.contains_key(n) && self.samples_by_node@[n]@.len() == self.n_samples));
                    }
                    return Err(msg);
                }
                i = i + 1;
            }
            proof {
                assert forall|n: u32| #[trigger] graph.nodes@.contains_key(n)
                    implies self.samples_by_node@.contains_key(n) && self.samples_by_node@[n]@.len() == self.n_samples by {
                    assert(ids@.to_set().contains(n));
                    let k = choose|k: int| 0 <= k < ids@.len() && ids@[k] == n;
                }
                assert forall|n: u32, k: int| #[trigger] graph.nodes@.contains_key(n) && 0 <= k < self.n_samples
                    implies #[trigger] self.draws@[k].contains_key(n) && self.samples_by_node@[n]@[k] == self.draws@[k][n] by {
                    lemma_full_node_draws(self.draws@, n, self.draws@.len() as int);
                }
            }
        }
        proof {
            assert forall|n: u32| #[trigger] self.samples_by_node@.contains_key(n)
                implies self.samples_by_node@[n]@.len() == self.draws@.len()
                && forall|k: int| 0 <= k < self.draws@.len() ==> #[trigger] self.draws@[k].contains_key(n)
                    && self.samples_by_node@[n]@[k] == self.draws@[k][n] by {
                assert forall|k: int| 0 <= k < self.draws@.len() implies (#[trigger] self.draws@[k]).contains_key(n) by {
                    assert(self.draws@[k].dom() == self.samples_by_node@.dom());
                }
                lemma_node_draws_all(self.draws@, n, self.draws@.len() as int);
            }
        }
        let retained = self.traces.len();
        let cancelled = self.cancelled;
        Ok(ControlledInferenceResult {
            result: InferenceResult {
                seed: self.seed,
                n_samples: retained,
                n_warmup: self.completed_warmup,
                samples_by_node: self.samples_by_node,
                traces: self.traces,
            },
            cancelled,
        })
    }
}

} // verus!
