//! The distributions a random node can use and the number of parameters each takes.
use crate::text::push_str;
use vstd::prelude::*;

verus! {

/// A distribution family of a random node.
#[derive(Clone, Copy, Debug, PartialEq, Eq, Structural)]
pub enum DistributionKind {
    /// Parameters: mean and standard deviation.
    Normal,
    /// Parameters: lower and upper bound.
    Uniform,
    /// Parameters: alpha and beta.
    Beta,
    /// Parameter: rate.
    Exponential,
    /// Parameters: shape and rate.
    Gamma,
    /// Parameters: mean and standard deviation of the logarithm.
    LogNormal,
}

/// The family named `name`, if it is one.
pub open spec fn kind_named(name: Seq<char>) -> Option<DistributionKind> {
    if name == "Normal"@ {
        Some(DistributionKind::Normal)
    } else if name == "Uniform"@ {
        Some(DistributionKind::Uniform)
    } else if name == "Beta"@ {
        Some(DistributionKind::Beta)
    } else if name == "Exponential"@ {
        Some(DistributionKind::Exponential)
    } else if name == "Gamma"@ {
        Some(DistributionKind::Gamma)
    } else if name == "LogNormal"@ {
        Some(DistributionKind::LogNormal)
    } else {
        None
    }
}

/// The number of parameters a family takes.
pub open spec fn arity(kind: DistributionKind) -> nat {
    match kind {
        DistributionKind::Exponential => 1,
        _ => 2,
    }
}

/// Whether `s` holds the characters of `lit`.
pub(crate) fn text_is(s: &str, lit: &str) -> (r: bool)
    ensures
        r == (s@ == lit@),
{
    let a = String::from_str(s);
    let b = String::from_str(lit);
    a == b
}

/// The distribution family for a random node of type `dist_type` with `n_params`
/// parameters. An unknown name, or a known one with another number of
/// parameters, is refused with `wrong number of parameters for {name}`.
pub fn distribution_kind(dist_type: &str, n_params: usize) -> (result: Result<DistributionKind, String>)
    ensures
        result matches Ok(k) ==> kind_named(dist_type@) == Some(k) && arity(k) == n_params,
        result is Err <==> !(kind_named(dist_type@) matches Some(k) && arity(k) == n_params),
        result matches Err(msg) ==> msg@ == "wrong number of parameters for "@ + dist_type@,
{
    proof {
        reveal_strlit("Normal");
        reveal_strlit("Uniform");
        reveal_strlit("Beta");
        reveal_strlit("Exponential");
        reveal_strlit("Gamma");
        reveal_strlit("LogNormal");
    }
    let kind = if text_is(dist_type, "Normal") {
        Some(DistributionKind::Normal)
    } else if text_is(dist_type, "Uniform") {
        Some(DistributionKind::Uniform)
    } else if text_is(dist_type, "Beta") {
        Some(DistributionKind::Beta)
    } else if text_is(dist_type, "Exponential") {
        Some(DistributionKind::Exponential)
    } else if text_is(dist_type, "Gamma") {
        Some(DistributionKind::Gamma)
    } else if text_is(dist_type, "LogNormal") {
        Some(DistributionKind::LogNormal)
    } else {
        None
    };
    match kind {
        Some(k) => {
            let expected: usize = match k {
                DistributionKind::Exponential => 1,
                _ => 2,
            };
            if expected == n_params {
                return Ok(k);
            }
        },
        None => {},
    }
    let mut msg = String::new();
    push_str(&mut msg, "wrong number of parameters for ");
    push_str(&mut msg, dist_type);
    proof { reveal_strlit("wrong number of parameters for "); }
    Err(msg)
}

} // verus!
