//! Checks on a bundled graph description before it is loaded into the editor.
use crate::text::{decimal, push_decimal, push_str};
use vstd::prelude::*;

verus! {

broadcast use vstd::seq_lib::group_seq_properties;

/// What the check reads of one preset node: its id, whether its position (and,
/// for a scalar, its value) is finite, and the nodes its parameters name.
#[derive(Debug)]
pub struct PresetNodeRefs {
    pub id: u32,
    pub position_finite: bool,
    pub value_finite: bool,
    pub sources: Vec<Option<u32>>,
}

/// What the check reads of one preset plate: its id, whether its rectangle is
/// finite and large enough, its dataset's name, and the nodes it maps.
#[derive(Debug)]
pub struct PresetPlateRefs {
    pub id: u32,
    pub bounds_valid: bool,
    pub dataset_id: String,
    pub mapped_nodes: Vec<u32>,
}

/// The dataset name that stands for a plate without a dataset.
pub open spec fn no_dataset() -> Seq<char> {
    "No dataset"@
}

/// The ids of the nodes.
pub open spec fn preset_node_ids(ns: Seq<PresetNodeRefs>) -> Seq<u32> {
    ns.map_values(|n: PresetNodeRefs| n.id)
}

/// The ids of the plates.
pub open spec fn preset_plate_ids(ps: Seq<PresetPlateRefs>) -> Seq<u32> {
    ps.map_values(|p: PresetPlateRefs| p.id)
}

pub open spec fn duplicate_message(id: u32) -> Seq<char> {
    "duplicate graph ID "@ + decimal(id as nat)
}

/// What is wrong with node `k`, if anything, given the nodes before it.
pub open spec fn node_problem(ns: Seq<PresetNodeRefs>, k: int) -> Option<Seq<char>> {
    let n = ns[k];
    if preset_node_ids(ns).take(k).contains(n.id) {
        Some(duplicate_message(n.id))
    } else if !n.position_finite {
        Some("node "@ + decimal(n.id as nat) + " has a non-finite position"@)
    } else if !n.value_finite {
        Some("node "@ + decimal(n.id as nat) + " has a non-finite scalar value"@)
    } else {
        None
    }
}

/// The first mapped node among the first `end` that is not a node of the preset.
pub open spec fn first_missing(ids: Seq<u32>, mapped: Seq<u32>, end: int) -> Option<u32>
    decreases end,
{
    if end <= 0 {
        None
    } else {
        match first_missing(ids, mapped, end - 1) {
            Some(n) => Some(n),
            None => if ids.contains(mapped[end - 1]) { None } else { Some(mapped[end - 1]) },
        }
    }
}

/// What is wrong with plate `k`, if anything, given the nodes and the plates before it.
pub open spec fn plate_problem(ns: Seq<PresetNodeRefs>, ps: Seq<PresetPlateRefs>, names: Seq<Seq<char>>, k: int) -> Option<Seq<char>> {
    let p = ps[k];
    if preset_node_ids(ns).contains(p.id) || preset_plate_ids(ps).take(k).contains(p.id) {
        Some(duplicate_message(p.id))
    } else if !p.bounds_valid {
        Some("plate "@ + decimal(p.id as nat) + " has invalid bounds"@)
    } else if p.dataset_id@ != no_dataset() && !names.contains(p.dataset_id@) {
        Some("dataset '"@ + p.dataset_id@ + "' was not found"@)
    } else {
        match first_missing(preset_node_ids(ns), p.mapped_nodes@, p.mapped_nodes@.len() as int) {
            Some(n) => Some("plate "@ + decimal(p.id as nat) + " maps missing node "@ + decimal(n as nat)),
            None => None,
        }
    }
}

/// The first source among the first `end` that names no node of the preset.
pub open spec fn first_missing_source(ids: Seq<u32>, sources: Seq<Option<u32>>, end: int) -> Option<u32>
    decreases end,
{
    if end <= 0 {
        None
    } else {
        match first_missing_source(ids, sources, end - 1) {
            Some(n) => Some(n),
            None => match sources[end - 1] {
                Some(s) => if ids.contains(s) { None } else { Some(s) },
                None => None,
            },
        }
    }
}

/// What is wrong with the parameters of node `k`, if anything.
pub open spec fn source_problem(ns: Seq<PresetNodeRefs>, k: int) -> Option<Seq<char>> {
    match first_missing_source(preset_node_ids(ns), ns[k].sources@, ns[k].sources@.len() as int) {
        Some(s) => Some("node "@ + decimal(ns[k].id as nat) + " references missing node "@ + decimal(s as nat)),
        None => None,
    }
}

/// The first node problem among the first `end` nodes.
pub open spec fn first_node_problem(ns: Seq<PresetNodeRefs>, end: int) -> Option<Seq<char>>
    decreases end,
{
    if end <= 0 {
        None
    } else {
        match first_node_problem(ns, end - 1) {
            Some(m) => Some(m),
            None => node_problem(ns, end - 1),
        }
    }
}

/// The first plate problem among the first `end` plates.
pub open spec fn first_plate_problem(ns: Seq<PresetNodeRefs>, ps: Seq<PresetPlateRefs>, names: Seq<Seq<char>>, end: int) -> Option<Seq<char>>
    decreases end,
{
    if end <= 0 {
        None
    } else {
        match first_plate_problem(ns, ps, names, end - 1) {
            Some(m) => Some(m),
            None => plate_problem(ns, ps, names, end - 1),
        }
    }
}

/// The first parameter problem among the first `end` nodes.
pub open spec fn first_source_problem(ns: Seq<PresetNodeRefs>, end: int) -> Option<Seq<char>>
    decreases end,
{
    if end <= 0 {
        None
    } else {
        match first_source_problem(ns, end - 1) {
            Some(m) => Some(m),
            None => source_problem(ns, end - 1),
        }
    }
}

/// The problem the check reports: the first node problem, else the first plate
/// problem, else the first parameter that names a missing node.
pub open spec fn preset_problem(ns: Seq<PresetNodeRefs>, ps: Seq<PresetPlateRefs>, names: Seq<Seq<char>>) -> Option<Seq<char>> {
    match first_node_problem(ns, ns.len() as int) {
        Some(m) => Some(m),
        None => match first_plate_problem(ns, ps, names, ps.len() as int) {
            Some(m) => Some(m),
            None => first_source_problem(ns, ns.len() as int),
        },
    }
}

/// The names of the datasets.
pub open spec fn dataset_names(ds: Seq<String>) -> Seq<Seq<char>> {
    ds.map_values(|d: String| d@)
}

proof fn lemma_node_problem_stays(ns: Seq<PresetNodeRefs>, from: int, end: int)
    requires
        0 < from <= end,
        first_node_problem(ns, from) is Some,
    ensures
        first_node_problem(ns, end) == first_node_problem(ns, from),
    decreases end - from,
{
    if end > from {
        lemma_node_problem_stays(ns, from, end - 1);
    }
}

proof fn lemma_plate_problem_stays(ns: Seq<PresetNodeRefs>, ps: Seq<PresetPlateRefs>, names: Seq<Seq<char>>, from: int, end: int)
    requires
        0 < from <= end,
        first_plate_problem(ns, ps, names, from) is Some,
    ensures
        first_plate_problem(ns, ps, names, end) == first_plate_problem(ns, ps, names, from),
    decreases end - from,
{
    if end > from {
        lemma_plate_problem_stays(ns, ps, names, from, end - 1);
    }
}

proof fn lemma_source_problem_stays(ns: Seq<PresetNodeRefs>, from: int, end: int)
    requires
        0 < from <= end,
        first_source_problem(ns, from) is Some,
    ensures
        first_source_problem(ns, end) == first_source_problem(ns, from),
    decreases end - from,
{
    if end > from {
        lemma_source_problem_stays(ns, from, end - 1);
    }
}

/// The first mapped node that is not among the ids.
fn find_missing(ids: &Vec<u32>, mapped: &Vec<u32>) -> (r: Option<u32>)
    ensures
        r == first_missing(ids@, mapped@, mapped@.len() as int),
{
    let mut j: usize = 0;
    while j < mapped.len()
        invariant
            j <= mapped@.len(),
            first_missing(ids@, mapped@, j as int) is None,
        decreases mapped@.len() - j,
    {
        if !crate::util::contains_id(ids, mapped[j]) {
            proof { lemma_missing_stays(ids@, mapped@, j as int + 1, mapped@.len() as int); }
            return Some(mapped[j]);
        }
        j = j + 1;
    }
    None
}

proof fn lemma_missing_stays(ids: Seq<u32>, mapped: Seq<u32>, from: int, end: int)
    requires
        0 < from <= end,
        first_missing(ids, mapped, from) is Some,
    ensures
        first_missing(ids, mapped, end) == first_missing(ids, mapped, from),
    decreases end - from,
{
    if end > from {
        lemma_missing_stays(ids, mapped, from, end - 1);
    }
}

/// The first source that names none of the ids.
fn find_missing_source(ids: &Vec<u32>, sources: &Vec<Option<u32>>) -> (r: Option<u32>)
    ensures
        r == first_missing_source(ids@, sources@, sources@.len() as int),
{
    let mut j: usize = 0;
    while j < sources.len()
        invariant
            j <= sources@.len(),
            first_missing_source(ids@, sources@, j as int) is None,
        decreases sources@.len() - j,
    {
        match sources[j] {
            Some(s) => {
                if !crate::util::contains_id(ids, s) {
                    proof { lemma_missing_source_stays(ids@, sources@, j as int + 1, sources@.len() as int); }
                    return Some(s);
                }
            },
            None => {},
        }
        j = j + 1;
    }
    None
}

proof fn lemma_missing_source_stays(ids: Seq<u32>, sources: Seq<Option<u32>>, from: int, end: int)
    requires
        0 < from <= end,
        first_missing_source(ids, sources, from) is Some,
    ensures
        first_missing_source(ids, sources, end) == first_missing_source(ids, sources, from),
    decreases end - from,
{
    if end > from {
        lemma_missing_source_stays(ids, sources, from, end - 1);
    }
}

/// Whether a dataset of that name is known.
fn has_dataset(names: &Vec<String>, name: &String) -> (r: bool)
    ensures
        r == dataset_names(names@).contains(name@),
{
    let mut i: usize = 0;
    while i < names.len()
        invariant
            i <= names@.len(),
            forall|q: int| 0 <= q < i ==> names@[q]@ != name@,
        decreases names@.len() - i,
    {
        if names[i] == *name {
            proof { assert(dataset_names(names@)[i as int] == name@); }
            return true;
        }
        i = i + 1;
    }
    proof {
        assert forall|q: int| 0 <= q < dataset_names(names@).len() implies dataset_names(names@)[q] != name@ by {
            assert(dataset_names(names@)[q] == names@[q]@);
        }
    }
    false
}

/// Checks a preset before it is loaded: node and plate ids are distinct, node
/// positions and scalar values finite, plate rectangles valid, each plate's
/// dataset known (or none), and every mapped node and parameter source a node of
/// the preset. The first problem found is reported.
pub fn validate_preset(nodes: &Vec<PresetNodeRefs>, plates: &Vec<PresetPlateRefs>, datasets: &Vec<String>) -> (result: Result<(), String>)
    ensures
        result is Ok <==> preset_problem(nodes@, plates@, dataset_names(datasets@)) is None,
        result matches Err(m) ==> preset_problem(nodes@, plates@, dataset_names(datasets@)) == Some(m@),
{
    let ghost ns = nodes@;
    let ghost ps = plates@;
    let ghost names = dataset_names(datasets@);
    proof {
        reveal_strlit("duplicate graph ID ");
        reveal_strlit("node ");
        reveal_strlit(" has a non-finite position");
        reveal_strlit(" has a non-finite scalar value");
        reveal_strlit("plate ");
        reveal_strlit(" has invalid bounds");
        reveal_strlit("dataset '");
        reveal_strlit("' was not found");
        reveal_strlit(" maps missing node ");
        reveal_strlit(" references missing node ");
        reveal_strlit("No dataset");
    }
    let mut ids: Vec<u32> = Vec::new();
    let mut k: usize = 0;
    while k < nodes.len()
        invariant
            k <= ns.len(),
            ns == nodes@,
            ids@ == preset_node_ids(ns).take(k as int),
            first_node_problem(ns, k as int) is None,
        decreases ns.len() - k,
    {
        let n = &nodes[k];
        proof { assert(preset_node_ids(ns).take(k + 1) =~= ids@.push(n.id)); }
        let mut msg = String::new();
        if crate::util::contains_id(&ids, n.id) {
            push_str(&mut msg, "duplicate graph ID ");
            push_decimal(&mut msg, n.id as u64);
        } else if !n.position_finite {
            push_str(&mut msg, "node ");
            push_decimal(&mut msg, n.id as u64);
            push_str(&mut msg, " has a non-finite position");
        } else if !n.value_finite {
            push_str(&mut msg, "node ");
            push_decimal(&mut msg, n.id as u64);
            push_str(&mut msg, " has a non-finite scalar value");
        } else {
            ids.push(n.id);
            k = k + 1;
            continue;
        }
        proof {
            assert(node_problem(ns, k as int) == Some(msg@));
            lemma_node_problem_stays(ns, k as int + 1, ns.len() as int);
        }
        return Err(msg);
    }
    proof { assert(ids@ =~= preset_node_ids(ns)); }
    let mut plate_ids: Vec<u32> = Vec::new();
    let mut k: usize = 0;
    while k < plates.len()
        invariant
            k <= ps.len(),
            ns == nodes@,
            ps == plates@,
            names == dataset_names(datasets@),
            ids@ == preset_node_ids(ns),
            plate_ids@ == preset_plate_ids(ps).take(k as int),
            first_node_problem(ns, ns.len() as int) is None,
            first_plate_problem(ns, ps, names, k as int) is None,
        decreases ps.len() - k,
    {
        let p = &plates[k];
        proof { assert(preset_plate_ids(ps).take(k + 1) =~= plate_ids@.push(p.id)); }
        let mut msg = String::new();
        if crate::util::contains_id(&ids, p.id) || crate::util::contains_id(&plate_ids, p.id) {
            push_str(&mut msg, "duplicate graph ID ");
            push_decimal(&mut msg, p.id as u64);
        } else if !p.bounds_valid {
            push_str(&mut msg, "plate ");
            push_decimal(&mut msg, p.id as u64);
            push_str(&mut msg, " has invalid bounds");
        } else if !crate::distributions::text_is(p.dataset_id.as_str(), "No dataset") && !has_dataset(datasets, &p.dataset_id) {
            push_str(&mut msg, "dataset '");
            push_str(&mut msg, p.dataset_id.as_str());
            push_str(&mut msg, "' was not found");
        } else {
            match find_missing(&ids, &p.mapped_nodes) {
                Some(n) => {
                    push_str(&mut msg, "plate ");
                    push_decimal(&mut msg, p.id as u64);
                    push_str(&mut msg, " maps missing node ");
                    push_decimal(&mut msg, n as u64);
                },
                None => {
                    plate_ids.push(p.id);
                    k = k + 1;
                    continue;
                },
            }
        }
        proof {
            assert(plate_problem(ns, ps, names, k as int) == Some(msg@));
            lemma_plate_problem_stays(ns, ps, names, k as int + 1, ps.len() as int);
        }
        return Err(msg);
    }
    let mut k: usize = 0;
    while k < nodes.len()
        invariant
            k <= ns.len(),
            ns == nodes@,
            ps == plates@,
            names == dataset_names(datasets@),
            ids@ == preset_node_ids(ns),
            first_node_problem(ns, ns.len() as int) is None,
            first_plate_problem(ns, ps, names, ps.len() as int) is None,
            first_source_problem(ns, k as int) is None,
        decreases ns.len() - k,
    {
        let n = &nodes[k];
        match find_missing_source(&ids, &n.sources) {
            Some(s) => {
                let mut msg = String::new();
                push_str(&mut msg, "node ");
                push_decimal(&mut msg, n.id as u64);
                push_str(&mut msg, " references missing node ");
                push_decimal(&mut msg, s as u64);
                proof {
                    assert(source_problem(ns, k as int) == Some(msg@));
                    lemma_source_problem_stays(ns, k as int + 1, ns.len() as int);
                }
                return Err(msg);
            },
            None => {},
        }
        k = k + 1;
    }
    Ok(())
}

/// What a preset menu entry asks for: loading a bundled preset, with its title
/// when the catalog has one under the chosen id, or clearing the graph.
#[derive(Debug)]
pub enum PresetRequest {
    Load { title: Option<String> },
    Clear,
}

/// The question asked before the graph is replaced, and the word on the button
/// that confirms it.
pub open spec fn confirmation_text(request: PresetRequest) -> (Seq<char>, Seq<char>) {
    match request {
        PresetRequest::Load { title } => (
            "Replace graph with "@ + match title {
                Some(t) => t@,
                None => "this preset"@,
            } + "?"@,
            "Load"@,
        ),
        PresetRequest::Clear => ("Clear the current graph?"@, "Clear"@),
    }
}

/// The confirmation the editor asks for before it acts on `request`.
pub fn preset_confirmation(request: &PresetRequest) -> (prompt: (String, &'static str))
    ensures
        prompt.0@ == confirmation_text(*request).0,
        prompt.1@ == confirmation_text(*request).1,
{
    proof {
        reveal_strlit("Replace graph with ");
        reveal_strlit("this preset");
        reveal_strlit("?");
        reveal_strlit("Load");
        reveal_strlit("Clear the current graph?");
        reveal_strlit("Clear");
    }
    let mut text = String::new();
    match request {
        PresetRequest::Load { title } => {
            push_str(&mut text, "Replace graph with ");
            match title {
                Some(t) => push_str(&mut text, t.as_str()),
                None => push_str(&mut text, "this preset"),
            }
            push_str(&mut text, "?");
            (text, "Load")
        },
        PresetRequest::Clear => {
            push_str(&mut text, "Clear the current graph?");
            (text, "Clear")
        },
    }
}

} // verus!
