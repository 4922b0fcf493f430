//! Decisions the editor takes on user input: what a click on a node does, and
//! which parameter a new link fills.
use crate::distributions::text_is;
use crate::sample_selections::SampleSelections;
use vstd::prelude::*;

verus! {

/// What a click on a node does.
#[derive(Clone, Copy, Debug, PartialEq, Eq, Structural)]
pub enum NodeClickAction {
    /// The pending link started at the clicked node itself: drop it.
    CancelLink,
    /// Complete the pending link from `from` to the clicked node `to`.
    CompleteLink { from: u64, to: u64 },
    /// Start a pending link at the clicked node.
    StartLink { from: u64 },
    /// Select the clicked node.
    Select,
    /// A long press or a multiple click: nothing happens.
    Ignore,
}

/// The longest press, in milliseconds, that still selects a node.
pub const SELECT_PRESS_MS: u64 = 200;

/// What a click on node `target` does. Outside the reduced view a pending link
/// (starting at `pending_from`) is completed, or dropped when it starts at the
/// target; with shift held a new link starts; otherwise a short single click
/// selects the node.
pub fn node_click_action(reduced_view_active: bool, pending_from: Option<u64>, target: u64, shift_held: bool, press_ms: u64, click_count: u32)
    -> (action: NodeClickAction)
    ensures
        action == (if !reduced_view_active && pending_from is Some {
            if pending_from->0 == target { NodeClickAction::CancelLink } else { NodeClickAction::CompleteLink { from: pending_from->0, to: target } }
        } else if !reduced_view_active && shift_held {
            NodeClickAction::StartLink { from: target }
        } else if press_ms < SELECT_PRESS_MS && click_count == 1 {
            NodeClickAction::Select
        } else {
            NodeClickAction::Ignore
        }),
{
    if !reduced_view_active {
        match pending_from {
            Some(from) => {
                return if from == target { NodeClickAction::CancelLink } else { NodeClickAction::CompleteLink { from, to: target } };
            },
            None => {},
        }
        if shift_held {
            return NodeClickAction::StartLink { from: target };
        }
    }
    if press_ms < SELECT_PRESS_MS && click_count == 1 {
        NodeClickAction::Select
    } else {
        NodeClickAction::Ignore
    }
}

/// Links the first unlinked parameter to `linked_node`; returns its position, or
/// `None` (and changes nothing) when every parameter is linked.
pub fn autofill_next_param(params: &mut Vec<Option<u64>>, linked_node: u64) -> (filled: Option<usize>)
    ensures
        filled is None ==> final(params)@ == old(params)@ && forall|i: int| 0 <= i < old(params)@.len() ==> (#[trigger] old(params)@[i]) is Some,
        filled matches Some(k) ==> {
            &&& k < old(params)@.len()
            &&& old(params)@[k as int] is None
            &&& forall|i: int| 0 <= i < k ==> (#[trigger] old(params)@[i]) is Some
            &&& final(params)@ == old(params)@.update(k as int, Some(linked_node))
        },
{
    let mut k: usize = 0;
    while k < params.len()
        invariant
            k <= params@.len(),
            params@ == old(params)@,
            forall|i: int| 0 <= i < k ==> (#[trigger] params@[i]) is Some,
        decreases params@.len() - k,
    {
        if params[k].is_none() {
            params.set(k, Some(linked_node));
            return Some(k);
        }
        k = k + 1;
    }
    None
}

/// Links parameter number `param_num` to `source` when the node has such a
/// parameter; returns whether it had one (and changes nothing when not).
pub fn pick_param(params: &mut Vec<Option<u64>>, param_num: usize, source: u64) -> (picked: bool)
    ensures
        picked == (param_num < old(params)@.len()),
        picked ==> final(params)@ == old(params)@.update(param_num as int, Some(source)),
        !picked ==> final(params)@ == old(params)@,
{
    if param_num < params.len() {
        params.set(param_num, Some(source));
        true
    } else {
        false
    }
}

/// Whether an edit of the graph discards the compiled model together with its
/// inference run and results: only when a model is compiled, and the edit
/// changed a node, a link or a plate, removed a node, or moved nodes so that the
/// plates that directly own them changed (`membership_changed`); moving nodes
/// within the same plates changes nothing.
pub fn invalidate_compilation_on_graph_change(
    compiled: bool,
    graph_edited: bool,
    nodes_moved: bool,
    membership_changed: bool,
    node_removed: bool,
) -> (invalidate: bool)
    ensures
        invalidate == (compiled && (graph_edited || (nodes_moved && membership_changed) || node_removed)),
{
    if !compiled {
        return false;
    }
    graph_edited || (nodes_moved && membership_changed) || node_removed
}

/// The kind of node a click on the empty canvas creates.
#[derive(Clone, Copy, Debug, PartialEq, Eq, Structural)]
pub enum NodeType {
    Random,
    Compute,
    Scalar,
}

/// The kind of node an entry of the node-type menu stands for; an unknown entry
/// stands for a random node.
pub open spec fn node_type_of(item: Seq<char>) -> NodeType {
    if item == "Compute"@ {
        NodeType::Compute
    } else if item == "Scalar"@ {
        NodeType::Scalar
    } else {
        NodeType::Random
    }
}

/// The kind of node new clicks create once `item` is picked from the node-type menu.
pub fn node_type_named(item: &str) -> (kind: NodeType)
    ensures
        kind == node_type_of(item@),
{
    if text_is(item, "Compute") {
        NodeType::Compute
    } else if text_is(item, "Scalar") {
        NodeType::Scalar
    } else {
        NodeType::Random
    }
}

/// The cursor shown over the graph canvas.
#[derive(Clone, Copy, Debug, PartialEq, Eq, Structural)]
pub enum GraphCursorState {
    Default,
    ShiftHeld,
    FinishLink,
}

/// The cursor over the canvas: finishing a link while one is pending; the
/// link-starting cursor while shift is held and no histogram is open; the
/// default cursor otherwise.
pub fn update_graph_cursor(link_pending: bool, histogram_open: bool, shift_held: bool) -> (cursor: GraphCursorState)
    ensures
        cursor == (if link_pending {
            GraphCursorState::FinishLink
        } else if !histogram_open && shift_held {
            GraphCursorState::ShiftHeld
        } else {
            GraphCursorState::Default
        }),
{
    if link_pending {
        GraphCursorState::FinishLink
    } else if !histogram_open && shift_held {
        GraphCursorState::ShiftHeld
    } else {
        GraphCursorState::Default
    }
}

/// The flags through which a running inference job is told to stop.
#[derive(Clone, Copy, Debug, PartialEq, Eq, Structural)]
pub struct JobControl {
    /// The job's result is to be thrown away.
    pub discard_result: bool,
    /// The job is to stop at its next step.
    pub cancel_requested: bool,
}

/// What the editor holds about the compiled model and its inference, beside the
/// user's sample selections.
pub struct CompilationSession {
    /// A compiled model is held.
    pub compiled: bool,
    /// Inference results are held.
    pub results: bool,
    /// An inference status line is held.
    pub status: bool,
    /// The running inference job, if any.
    pub job: Option<JobControl>,
    /// The inference controls are enabled.
    pub inference_controls_enabled: bool,
    /// The posterior-sample button is enabled.
    pub posterior_sample_enabled: bool,
    /// The histogram panel is open.
    pub histogram_open: bool,
    /// The selections the user made.
    pub selections: SampleSelections,
}

impl CompilationSession {
    /// Reacts to an edit of the graph (see `invalidate_compilation_on_graph_change`).
    /// When the edit invalidates the compiled model, the model, the results and
    /// the status are dropped, a running job is told to discard its result and
    /// stop, the inference controls and the posterior-sample button are disabled
    /// and the histogram panel closes; the user's selections stay, since only the
    /// clear button removes them. Otherwise nothing changes.
    pub fn on_graph_change(&mut self, graph_edited: bool, nodes_moved: bool, membership_changed: bool, node_removed: bool)
        -> (invalidated: bool)
        ensures
            invalidated == (old(self).compiled && (graph_edited || (nodes_moved && membership_changed) || node_removed)),
            final(self).selections@ == old(self).selections@,
            invalidated ==> {
                &&& !final(self).compiled
                &&& !final(self).results
                &&& !final(self).status
                &&& final(self).job == (match old(self).job {
                    Some(_) => Some(JobControl { discard_result: true, cancel_requested: true }),
                    None => None,
                })
                &&& !final(self).inference_controls_enabled
                &&& !final(self).posterior_sample_enabled
                &&& !final(self).histogram_open
            },
            !invalidated ==> {
                &&& final(self).compiled == old(self).compiled
                &&& final(self).results == old(self).results
                &&& final(self).status == old(self).status
                &&& final(self).job == old(self).job
                &&& final(self).inference_controls_enabled == old(self).inference_controls_enabled
                &&& final(self).posterior_sample_enabled == old(self).posterior_sample_enabled
                &&& final(self).histogram_open == old(self).histogram_open
            },
    {
        let invalidated = invalidate_compilation_on_graph_change(self.compiled, graph_edited, nodes_moved, membership_changed, node_removed);
        if invalidated {
            if self.job.is_some() {
                self.job = Some(JobControl { discard_result: true, cancel_requested: true });
            }
            self.compiled = false;
            self.results = false;
            self.status = false;
            self.inference_controls_enabled = false;
            self.posterior_sample_enabled = false;
            self.histogram_open = false;
        }
        invalidated
    }
}

} // verus!
