//! The number of bins of the posterior histogram, and how the user changes it:
//! by typing a count, or one bin at a time.
use crate::numbers::{parse_whole, whole_number};
use crate::inference::NodeInstanceSamples;
use crate::text::{decimal, push_decimal, push_str};
use vstd::prelude::*;

verus! {

/// The most bins a histogram has.
pub const MAX_HISTOGRAM_BINS: usize = 200;

/// What the user is told when a typed bin count is refused.
pub open spec fn bin_count_message() -> Seq<char> {
    "Histogram bins must be from 1 to 200."@
}

/// Whether the typed text reads as a bin count the histogram accepts.
pub open spec fn typed_count_ok(text: Seq<char>) -> bool {
    whole_number(text, usize::MAX as nat) matches Some(n) && 1 <= n <= MAX_HISTOGRAM_BINS
}

/// The bin count after the user typed `text` while the histogram showed
/// `current` bins: the typed count when it is a whole number from 1 to
/// `MAX_HISTOGRAM_BINS`; otherwise `current` again, together with the message
/// that explains the refusal.
pub fn apply_typed_histogram_bin_count(text: &str, current: usize) -> (r: (usize, Option<String>))
    ensures
        typed_count_ok(text@) ==> r.1 is None && whole_number(text@, usize::MAX as nat) == Some(r.0 as nat),
        !typed_count_ok(text@) ==> r.0 == current && (r.1 matches Some(m) && m@ == bin_count_message()),
{
    match parse_whole(text, usize::MAX as u64) {
        Some(n) => {
            if 1 <= n && n <= MAX_HISTOGRAM_BINS as u64 {
                return (n as usize, None);
            }
        },
        None => {},
    }
    let mut m = String::new();
    push_str(&mut m, "Histogram bins must be from 1 to 200.");
    proof { reveal_strlit("Histogram bins must be from 1 to 200."); }
    (current, Some(m))
}

/// The bin count one step up from `current`, at most `MAX_HISTOGRAM_BINS`.
pub open spec fn bins_up(current: nat) -> nat {
    if current + 1 <= MAX_HISTOGRAM_BINS { current + 1 } else { MAX_HISTOGRAM_BINS as nat }
}

/// The bin count one step down from `current`, at least one.
pub open spec fn bins_down(current: nat) -> nat {
    if current >= 2 { (current - 1) as nat } else { 1 }
}

/// The bin count after the user asks for one more bin.
pub fn incremented_bin_count(current: usize) -> (next: usize)
    ensures
        next == bins_up(current as nat),
{
    let up = current.saturating_add(1);
    if up < MAX_HISTOGRAM_BINS { up } else { MAX_HISTOGRAM_BINS }
}

/// The bin count after the user asks for one bin fewer.
pub fn decremented_bin_count(current: usize) -> (next: usize)
    ensures
        next == bins_down(current as nat),
{
    let down = current.saturating_sub(1);
    if down > 1 { down } else { 1 }
}

/// The bin count a histogram opens with when `requested` bins are asked for:
/// `requested` brought into the range from 1 to `MAX_HISTOGRAM_BINS`.
pub fn clamped_bin_count(requested: usize) -> (count: usize)
    ensures
        count == (if requested < 1 { 1 } else if requested > MAX_HISTOGRAM_BINS { MAX_HISTOGRAM_BINS } else { requested }),
{
    if requested < 1 {
        1
    } else if requested > MAX_HISTOGRAM_BINS {
        MAX_HISTOGRAM_BINS
    } else {
        requested
    }
}

/// Every way of changing the bin count keeps it from 1 to `MAX_HISTOGRAM_BINS`,
/// and, inside that range, one step up followed by one step down (or the other
/// way round, away from the ends) comes back to where it started.
pub proof fn lemma_bin_steps(current: nat)
    ensures
        1 <= bins_up(current) <= MAX_HISTOGRAM_BINS,
        current <= MAX_HISTOGRAM_BINS ==> 1 <= bins_down(current) <= MAX_HISTOGRAM_BINS,
        1 <= current < MAX_HISTOGRAM_BINS ==> bins_down(bins_up(current)) == current,
        1 < current <= MAX_HISTOGRAM_BINS ==> bins_up(bins_down(current)) == current,
{
}

/// Where an inference run stands.
#[derive(Clone, Copy, Debug, PartialEq, Eq, Structural)]
pub enum InferenceResultState {
    Running,
    Complete,
    Cancelled,
    Failed,
}

/// The heading of the histogram of the node labelled `label`, given the state
/// of the run and the draws it asked for (when a status is held) and the draws
/// retained so far.
pub open spec fn heading_text(status: Option<(InferenceResultState, usize)>, label: Seq<char>, retained: nat) -> Seq<char> {
    match status {
        Some((InferenceResultState::Running, requested)) => "Live posterior samples - "@ + label + " - "@
            + decimal(retained) + " / "@ + decimal(requested as nat) + " draws"@,
        Some((InferenceResultState::Cancelled, requested)) => "Partial posterior - "@ + label + " - cancelled at "@
            + decimal(retained) + " / "@ + decimal(requested as nat) + " draws"@,
        Some((InferenceResultState::Failed, requested)) => "Partial posterior - "@ + label + " - failed at "@
            + decimal(retained) + " / "@ + decimal(requested as nat) + " draws"@,
        _ => "Posterior samples - "@ + label,
    }
}

/// The heading of the histogram panel.
pub fn histogram_heading(status: Option<(InferenceResultState, usize)>, label: &str, retained: usize) -> (heading: String)
    ensures
        heading@ == heading_text(status, label@, retained as nat),
{
    proof {
        reveal_strlit("Live posterior samples - ");
        reveal_strlit("Partial posterior - ");
        reveal_strlit(" - cancelled at ");
        reveal_strlit(" - failed at ");
        reveal_strlit(" - ");
        reveal_strlit(" / ");
        reveal_strlit(" draws");
        reveal_strlit("Posterior samples - ");
    }
    let mut text = String::new();
    match status {
        Some((InferenceResultState::Complete, _)) | None => {
            push_str(&mut text, "Posterior samples - ");
            push_str(&mut text, label);
            return text;
        },
        Some((state, requested)) => {
            match state {
                InferenceResultState::Running => {
                    push_str(&mut text, "Live posterior samples - ");
                    push_str(&mut text, label);
                    push_str(&mut text, " - ");
                },
                InferenceResultState::Cancelled => {
                    push_str(&mut text, "Partial posterior - ");
                    push_str(&mut text, label);
                    push_str(&mut text, " - cancelled at ");
                },
                _ => {
                    push_str(&mut text, "Partial posterior - ");
                    push_str(&mut text, label);
                    push_str(&mut text, " - failed at ");
                },
            }
            push_decimal(&mut text, retained as u64);
            push_str(&mut text, " / ");
            push_decimal(&mut text, requested as u64);
            push_str(&mut text, " draws");
            text
        },
    }
}

/// The error shown for node `node_id` when the histogram cannot open.
pub open spec fn panel_error(node_id: u32, plate_path: Option<Vec<u32>>, samples: Result<Vec<NodeInstanceSamples>, String>) -> Option<Seq<char>> {
    if plate_path is None {
        Some("Could not find plate metadata for node "@ + decimal(node_id as nat) + "."@)
    } else {
        match samples {
            Ok(instances) => if instances@.len() == 0 {
                Some("Node "@ + decimal(node_id as nat) + " has no posterior values."@)
            } else {
                None
            },
            Err(e) => Some("Could not display node "@ + decimal(node_id as nat) + ": "@ + e@),
        }
    }
}

/// What the histogram of node `node_id` shows, given the plates the node lies
/// in (if the compiled graph knows it) and the node's posterior samples by
/// instance: both, or the error the user is shown.
pub fn histogram_instances(node_id: u32, plate_path: Option<Vec<u32>>, samples: Result<Vec<NodeInstanceSamples>, String>)
    -> (r: Result<(Vec<u32>, Vec<NodeInstanceSamples>), String>)
    ensures
        r is Err <==> panel_error(node_id, plate_path, samples) is Some,
        r matches Err(m) ==> panel_error(node_id, plate_path, samples) == Some(m@),
        r matches Ok((path, instances)) ==> plate_path == Some(path) && samples == Ok::<Vec<NodeInstanceSamples>, String>(instances),
{
    proof {
        reveal_strlit("Could not find plate metadata for node ");
        reveal_strlit(".");
        reveal_strlit("Node ");
        reveal_strlit(" has no posterior values.");
        reveal_strlit("Could not display node ");
        reveal_strlit(": ");
    }
    let path = match plate_path {
        Some(path) => path,
        None => {
            let mut m = String::new();
            push_str(&mut m, "Could not find plate metadata for node ");
            push_decimal(&mut m, node_id as u64);
            push_str(&mut m, ".");
            return Err(m);
        },
    };
    match samples {
        Ok(instances) => {
            if instances.len() == 0 {
                let mut m = String::new();
                push_str(&mut m, "Node ");
                push_decimal(&mut m, node_id as u64);
                push_str(&mut m, " has no posterior values.");
                Err(m)
            } else {
                Ok((path, instances))
            }
        },
        Err(e) => {
            let mut m = String::new();
            push_str(&mut m, "Could not display node ");
            push_decimal(&mut m, node_id as u64);
            push_str(&mut m, ": ");
            push_str(&mut m, e.as_str());
            Err(m)
        },
    }
}

} // verus!
