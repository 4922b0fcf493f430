//! Names and labels of graph nodes, and the parameters each kind of node takes.
use crate::distributions::{arity, text_is, DistributionKind};
use crate::graph_ir::Operation;
use crate::plate_mapping::unobserved;
use crate::text::{decimal, push_decimal, push_str};
use vstd::prelude::*;

verus! {

/// The most characters a node name keeps.
pub const MAX_NODE_NAME_CHARS: usize = 10;

/// The name a node gets from the text `raw` typed for it: the first
/// `MAX_NODE_NAME_CHARS` characters, or no name at all when `raw` is empty.
pub open spec fn entered_name(raw: Seq<char>) -> Option<Seq<char>> {
    if raw.len() == 0 {
        None
    } else if raw.len() <= MAX_NODE_NAME_CHARS {
        Some(raw)
    } else {
        Some(raw.take(MAX_NODE_NAME_CHARS as int))
    }
}

/// The name a node gets when `raw` is typed as its name.
pub fn entered_node_name(raw: &str) -> (name: Option<String>)
    ensures
        name is None <==> entered_name(raw@) is None,
        name matches Some(n) ==> entered_name(raw@) == Some(n@),
{
    let len = raw.unicode_len();
    if len == 0 {
        None
    } else {
        let end = if len < MAX_NODE_NAME_CHARS { len } else { MAX_NODE_NAME_CHARS };
        let part = raw.substring_char(0, end);
        proof {
            if raw@.len() <= MAX_NODE_NAME_CHARS {
                assert(raw@.subrange(0, len as int) =~= raw@);
            }
        }
        Some(part.to_owned())
    }
}

/// The label of a random node: its name, or else its number.
pub open spec fn random_label(name: Option<Seq<char>>, node_num: u32) -> Seq<char> {
    match name {
        Some(n) => n,
        None => decimal(node_num as nat),
    }
}

/// The label shown on random node number `node_num` named `name`.
pub fn random_node_label(name: Option<&str>, node_num: u32) -> (label: String)
    ensures
        label@ == random_label(
            match name {
                Some(n) => Some(n@),
                None => None,
            },
            node_num,
        ),
{
    let mut label = String::new();
    match name {
        Some(n) => push_str(&mut label, n),
        None => push_decimal(&mut label, node_num as u64),
    }
    label
}

/// The first observed column among the columns that the plates map a scalar
/// node to, in the order of the plates (`None` for a plate that does not map it).
pub open spec fn first_observed(columns: Seq<Option<String>>) -> Option<Seq<char>>
    decreases columns.len(),
{
    if columns.len() == 0 {
        None
    } else if columns[0] is Some && columns[0]->0@ != unobserved() {
        Some(columns[0]->0@)
    } else {
        first_observed(columns.drop_first())
    }
}

/// The label of a scalar node: its name, else the first observed column a plate
/// maps it to, else its value written as `value_text`.
pub open spec fn scalar_label(name: Option<Seq<char>>, columns: Seq<Option<String>>, value_text: Seq<char>) -> Seq<char> {
    match name {
        Some(n) => n,
        None => match first_observed(columns) {
            Some(c) => c,
            None => value_text,
        },
    }
}

/// The label shown on a scalar node named `name`, which the plates map to
/// `plate_columns`, and whose value reads `value_text`.
pub fn scalar_display_label(name: Option<&str>, plate_columns: &Vec<Option<String>>, value_text: &str) -> (label: String)
    ensures
        label@ == scalar_label(
            match name {
                Some(n) => Some(n@),
                None => None,
            },
            plate_columns@,
            value_text@,
        ),
{
    let mut label = String::new();
    match name {
        Some(n) => {
            push_str(&mut label, n);
            return label;
        },
        None => {},
    }
    proof {
        reveal_strlit("unobserved");
        assert(plate_columns@.skip(0) =~= plate_columns@);
    }
    let mut i: usize = 0;
    while i < plate_columns.len()
        invariant
            i <= plate_columns@.len(),
            name is None,
            label@ == Seq::<char>::empty(),
            first_observed(plate_columns@) == first_observed(plate_columns@.skip(i as int)),
        decreases plate_columns@.len() - i,
    {
        assert(plate_columns@.skip(i as int).drop_first() =~= plate_columns@.skip(i + 1));
        assert(plate_columns@.skip(i as int)[0] == plate_columns@[i as int]);
        match &plate_columns[i] {
            Some(column) => {
                if !text_is(column.as_str(), "unobserved") {
                    push_str(&mut label, column.as_str());
                    return label;
                }
            },
            None => {},
        }
        i = i + 1;
    }
    assert(plate_columns@.skip(i as int).len() == 0);
    push_str(&mut label, value_text);
    label
}

/// How a compute node with operation `op` names its operation in lists.
pub open spec fn operation_label_text(op: Operation) -> Seq<char> {
    match op {
        Operation::Add => "+"@,
        Operation::Subtract => "-"@,
        Operation::Multiply => "*"@,
        Operation::Divide => "/"@,
        Operation::Exponential => "exp"@,
        Operation::Logarithm => "log"@,
        Operation::Power => "^"@,
        Operation::Sum => "\u{2211}"@,
        Operation::Product => "prod"@,
    }
}

/// How a compute node with operation `op` names its operation in lists.
pub fn operation_label(op: Operation) -> (label: &'static str)
    ensures
        label@ == operation_label_text(op),
{
    match op {
        Operation::Add => "+",
        Operation::Subtract => "-",
        Operation::Multiply => "*",
        Operation::Divide => "/",
        Operation::Exponential => "exp",
        Operation::Logarithm => "log",
        Operation::Power => "^",
        Operation::Sum => "\u{2211}",
        Operation::Product => "prod",
    }
}

/// The symbol drawn on a compute node with operation `op`.
pub open spec fn canvas_symbol(op: Operation) -> Seq<char> {
    match op {
        Operation::Add => "+"@,
        Operation::Subtract => "-"@,
        Operation::Multiply => "*"@,
        Operation::Divide => "/"@,
        Operation::Exponential => "exp"@,
        Operation::Logarithm => "log"@,
        Operation::Power => "^"@,
        Operation::Sum => "\u{2211}"@,
        Operation::Product => "\u{3c0}"@,
    }
}

/// The symbol drawn on a compute node with operation `op`.
pub fn operation_symbol(op: Operation) -> (symbol: &'static str)
    ensures
        symbol@ == canvas_symbol(op),
{
    match op {
        Operation::Add => "+",
        Operation::Subtract => "-",
        Operation::Multiply => "*",
        Operation::Divide => "/",
        Operation::Exponential => "exp",
        Operation::Logarithm => "log",
        Operation::Power => "^",
        Operation::Sum => "\u{2211}",
        Operation::Product => "\u{3c0}",
    }
}

/// The operation an entry of the operation menu stands for; an unknown entry
/// stands for addition.
pub open spec fn menu_operation_spec(item: Seq<char>) -> Operation {
    if item == "Subtract"@ {
        Operation::Subtract
    } else if item == "Multiply"@ {
        Operation::Multiply
    } else if item == "Divide"@ {
        Operation::Divide
    } else if item == "Power"@ {
        Operation::Power
    } else if item == "Exp"@ {
        Operation::Exponential
    } else if item == "Log"@ {
        Operation::Logarithm
    } else if item == "Sum"@ {
        Operation::Sum
    } else if item == "Product"@ {
        Operation::Product
    } else {
        Operation::Add
    }
}

/// The operation a compute node takes when `item` is picked from the operation menu.
pub fn menu_operation(item: &str) -> (op: Operation)
    ensures
        op == menu_operation_spec(item@),
{
    if text_is(item, "Subtract") {
        Operation::Subtract
    } else if text_is(item, "Multiply") {
        Operation::Multiply
    } else if text_is(item, "Divide") {
        Operation::Divide
    } else if text_is(item, "Power") {
        Operation::Power
    } else if text_is(item, "Exp") {
        Operation::Exponential
    } else if text_is(item, "Log") {
        Operation::Logarithm
    } else if text_is(item, "Sum") {
        Operation::Sum
    } else if text_is(item, "Product") {
        Operation::Product
    } else {
        Operation::Add
    }
}

/// Whether some plate maps a node to a data column, given the column each plate
/// maps it to (`None` for a plate that does not map it).
pub fn node_is_observed(plate_columns: &Vec<Option<String>>) -> (observed: bool)
    ensures
        observed <==> exists|i: int| 0 <= i < plate_columns@.len() && (#[trigger] plate_columns@[i] matches Some(c) && c@ != unobserved()),
        observed <==> first_observed(plate_columns@) is Some,
{
    proof {
        reveal_strlit("unobserved");
        assert(plate_columns@.skip(0) =~= plate_columns@);
    }
    let mut i: usize = 0;
    while i < plate_columns.len()
        invariant
            i <= plate_columns@.len(),
            first_observed(plate_columns@) == first_observed(plate_columns@.skip(i as int)),
            forall|j: int| 0 <= j < i ==> !(#[trigger] plate_columns@[j] matches Some(c) && c@ != unobserved()),
        decreases plate_columns@.len() - i,
    {
        assert(plate_columns@.skip(i as int).drop_first() =~= plate_columns@.skip(i + 1));
        assert(plate_columns@.skip(i as int)[0] == plate_columns@[i as int]);
        match &plate_columns[i] {
            Some(column) => {
                if !text_is(column.as_str(), "unobserved") {
                    return true;
                }
            },
            None => {},
        }
        i = i + 1;
    }
    assert(plate_columns@.skip(i as int).len() == 0);
    false
}

/// How a random node describes itself in the sidebar: `name ~ family`, with
/// `var` standing for a missing name.
pub open spec fn random_description(name: Option<Seq<char>>, dist_type: Seq<char>) -> Seq<char> {
    match name {
        Some(n) => n + " ~ "@ + dist_type,
        None => "var ~ "@ + dist_type,
    }
}

/// How a random node named `name` of family `dist_type` describes itself.
pub fn random_node_description(name: Option<&str>, dist_type: &str) -> (text: String)
    ensures
        text@ == random_description(
            match name {
                Some(n) => Some(n@),
                None => None,
            },
            dist_type@,
        ),
{
    let mut text = String::new();
    match name {
        Some(n) => {
            push_str(&mut text, n);
            push_str(&mut text, " ~ ");
        },
        None => push_str(&mut text, "var ~ "),
    }
    push_str(&mut text, dist_type);
    proof {
        reveal_strlit(" ~ ");
        reveal_strlit("var ~ ");
    }
    text
}

/// The node at the start of a link into the node the sidebar shows.
#[derive(Clone, Debug)]
pub enum LinkSource {
    /// A random node, with its name and distribution family.
    Random { name: Option<String>, dist_type: String },
    /// A scalar node: the data column a plate maps it to, if any, and its own label.
    Scalar { column: Option<String>, label: String },
    /// A compute node and its operation.
    Compute { operation: Operation },
}

/// How a link from `source` is described.
pub open spec fn source_text(source: LinkSource) -> Seq<char> {
    match source {
        LinkSource::Random { name, dist_type } => random_description(
            match name {
                Some(n) => Some(n@),
                None => None,
            },
            dist_type@,
        ),
        LinkSource::Scalar { column, label } => "scalar: "@ + match column {
            Some(c) => c@,
            None => label@,
        },
        LinkSource::Compute { operation } => "operation: "@ + operation_label_text(operation),
    }
}

/// The line that shows incoming link number `k` (counted from zero) from `source`.
pub open spec fn link_line(k: int, source: LinkSource) -> Seq<char> {
    decimal((k + 1) as nat) + ": "@ + source_text(source)
}

/// The text that stands in the list when no link comes in.
pub open spec fn no_links_text() -> Seq<char> {
    "No incoming links!"@
}

/// How a link from `source` is described in the sidebar.
pub fn link_source_text(source: &LinkSource) -> (text: String)
    ensures
        text@ == source_text(*source),
{
    proof {
        reveal_strlit("scalar: ");
        reveal_strlit("operation: ");
    }
    match source {
        LinkSource::Random { name, dist_type } => {
            let n = match name {
                Some(n) => Some(n.as_str()),
                None => None,
            };
            random_node_description(n, dist_type.as_str())
        },
        LinkSource::Scalar { column, label } => {
            let mut text = String::new();
            push_str(&mut text, "scalar: ");
            match column {
                Some(c) => push_str(&mut text, c.as_str()),
                None => push_str(&mut text, label.as_str()),
            }
            text
        },
        LinkSource::Compute { operation } => {
            let mut text = String::new();
            push_str(&mut text, "operation: ");
            push_str(&mut text, operation_label(*operation));
            text
        },
    }
}

/// The lines of the sidebar's list of incoming links, one per link from
/// `sources`, numbered from 1 in order; a single line saying so when there is none.
pub fn available_links(sources: &Vec<LinkSource>) -> (lines: Vec<String>)
    ensures
        sources@.len() == 0 ==> lines@.len() == 1 && lines@[0]@ == no_links_text(),
        sources@.len() > 0 ==> lines@.len() == sources@.len()
            && forall|k: int| 0 <= k < sources@.len() ==> (#[trigger] lines@[k])@ == link_line(k, sources@[k]),
{
    let mut lines: Vec<String> = Vec::new();
    let mut k: usize = 0;
    while k < sources.len()
        invariant
            k <= sources@.len(),
            lines@.len() == k,
            forall|j: int| 0 <= j < k ==> (#[trigger] lines@[j])@ == link_line(j, sources@[j]),
        decreases sources@.len() - k,
    {
        let mut line = String::new();
        push_decimal(&mut line, (k + 1) as u64);
        push_str(&mut line, ": ");
        let text = link_source_text(&sources[k]);
        push_str(&mut line, text.as_str());
        proof { reveal_strlit(": "); }
        lines.push(line);
        k = k + 1;
    }
    if lines.len() == 0 {
        let mut none = String::new();
        push_str(&mut none, "No incoming links!");
        proof { reveal_strlit("No incoming links!"); }
        lines.push(none);
    }
    lines
}

/// The names of the parameters of a compute node with operation `op`.
pub open spec fn operation_param_names(op: Operation) -> Seq<Seq<char>> {
    match op {
        Operation::Add | Operation::Subtract | Operation::Multiply => seq!["first"@, "second"@],
        Operation::Divide => seq!["dividend"@, "divisor"@],
        Operation::Power => seq!["base"@, "exponent"@],
        Operation::Exponential | Operation::Logarithm => seq!["input"@],
        Operation::Sum | Operation::Product => seq!["values"@],
    }
}

/// The names of the parameters of a random node of family `kind`.
pub open spec fn distribution_param_names(kind: DistributionKind) -> Seq<Seq<char>> {
    match kind {
        DistributionKind::Normal | DistributionKind::LogNormal => seq!["mean"@, "std_dev"@],
        DistributionKind::Gamma => seq!["shape"@, "scale"@],
        DistributionKind::Beta => seq!["alpha"@, "beta"@],
        DistributionKind::Exponential => seq!["rate"@],
        DistributionKind::Uniform => seq!["min"@, "max"@],
    }
}

/// The texts of `names`.
pub open spec fn name_texts(names: Seq<&str>) -> Seq<Seq<char>> {
    names.map_values(|s: &str| s@)
}

/// The parameters a compute node with operation `op` takes, by name.
pub fn compute_params(op: Operation) -> (names: Vec<&'static str>)
    ensures
        name_texts(names@) == operation_param_names(op),
{
    let names = match op {
        Operation::Add | Operation::Subtract | Operation::Multiply => vec!["first", "second"],
        Operation::Divide => vec!["dividend", "divisor"],
        Operation::Power => vec!["base", "exponent"],
        Operation::Exponential | Operation::Logarithm => vec!["input"],
        Operation::Sum | Operation::Product => vec!["values"],
    };
    assert(name_texts(names@) =~= operation_param_names(op));
    names
}

/// The parameters a random node of family `kind` takes, by name.
pub fn distribution_params(kind: DistributionKind) -> (names: Vec<&'static str>)
    ensures
        name_texts(names@) == distribution_param_names(kind),
{
    let names = match kind {
        DistributionKind::Normal | DistributionKind::LogNormal => vec!["mean", "std_dev"],
        DistributionKind::Gamma => vec!["shape", "scale"],
        DistributionKind::Beta => vec!["alpha", "beta"],
        DistributionKind::Exponential => vec!["rate"],
        DistributionKind::Uniform => vec!["min", "max"],
    };
    assert(name_texts(names@) =~= distribution_param_names(kind));
    names
}

/// A random node offers one named parameter slot for every parameter its
/// family takes.
pub proof fn lemma_param_names_match_arity(kind: DistributionKind)
    ensures
        distribution_param_names(kind).len() == arity(kind),
{
}

} // verus!
