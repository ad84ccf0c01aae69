//! Errors reported by the analysis.

use vstd::prelude::*;
use vstd::string::StringExecFns;
use crate::text::{append_decimal, decimal};

verus! {

/// Errors that can occur during spectral prosody analysis.
#[derive(Debug, Clone)]
pub enum ProsodyError {
    /// Not enough nodes to construct a graph.
    InsufficientNodes { got: usize, need: usize },
    /// Eigen-decomposition failed to converge.
    DecompositionFailed(String),
    /// Invalid parameter value.
    InvalidParameter(String),
    /// Empty feature vector.
    EmptyFeature,
    /// Index out of range.
    IndexOutOfRange { index: usize, len: usize },
}

/// The human-readable text of an error.
pub open spec fn error_text(e: ProsodyError) -> Seq<char> {
    match e {
        ProsodyError::InsufficientNodes { got, need } =>
            "need at least "@ + decimal(need as nat) + " nodes, got "@ + decimal(got as nat),
        ProsodyError::DecompositionFailed(msg) => "decomposition failed: "@ + msg@,
        ProsodyError::InvalidParameter(msg) => "invalid parameter: "@ + msg@,
        ProsodyError::EmptyFeature => "feature vector is empty"@,
        ProsodyError::IndexOutOfRange { index, len } =>
            "index "@ + decimal(index as nat) + " out of range (len="@ + decimal(len as nat) + ")"@,
    }
}

impl ProsodyError {
    /// Renders the error as text (what `Display` shows).
    pub fn message(&self) -> (s: String)
        ensures
            s@ == error_text(*self),
    {
        match self {
            ProsodyError::InsufficientNodes { got, need } => {
                let mut s = String::from_str("need at least ");
                append_decimal(&mut s, *need);
                s.append(" nodes, got ");
                append_decimal(&mut s, *got);
                s
            },
            ProsodyError::DecompositionFailed(msg) => {
                let mut s = String::from_str("decomposition failed: ");
                s.append(msg.as_str());
                s
            },
            ProsodyError::InvalidParameter(msg) => {
                let mut s = String::from_str("invalid parameter: ");
                s.append(msg.as_str());
                s
            },
            ProsodyError::EmptyFeature => String::from_str("feature vector is empty"),
            ProsodyError::IndexOutOfRange { index, len } => {
                let mut s = String::from_str("index ");
                append_decimal(&mut s, *index);
                s.append(" out of range (len=");
                append_decimal(&mut s, *len);
                s.append(")");
                s
            },
        }
    }
}

/// Requires at least `need` nodes: fails with `InsufficientNodes` exactly when there are fewer.
pub fn require_nodes(got: usize, need: usize) -> (r: Result<(), ProsodyError>)
    ensures
        r is Ok <==> got >= need,
        r is Err ==> r == Err::<(), ProsodyError>(ProsodyError::InsufficientNodes { got, need }),
{
    if got < need {
        Err(ProsodyError::InsufficientNodes { got, need })
    } else {
        Ok(())
    }
}

/// The message given when the feature vectors that make up a graph differ in length.
pub open spec fn mismatched_lengths_text() -> Seq<char> {
    "all feature vectors must have the same length"@
}

/// Checks the lengths of the feature vectors that make up a prosody graph: at least
/// two time points, and as many energies, pitches, durations and centroids as times.
pub fn check_feature_lengths(
    times: usize,
    energies: usize,
    pitches: usize,
    durations: usize,
    centroids: usize,
) -> (r: Result<(), ProsodyError>)
    ensures
        r is Ok <==> times >= 2 && energies == times && pitches == times && durations == times && centroids == times,
        times < 2 ==> r == Err::<(), ProsodyError>(ProsodyError::InsufficientNodes { got: times, need: 2 }),
        times >= 2 && !(energies == times && pitches == times && durations == times && centroids == times) ==> (
            r matches Err(ProsodyError::InvalidParameter(m)) && m@ == mismatched_lengths_text()),
{
    require_nodes(times, 2)?;
    if energies != times || pitches != times || durations != times || centroids != times {
        return Err(ProsodyError::InvalidParameter(String::from_str("all feature vectors must have the same length")));
    }
    Ok(())
}

} // verus!
