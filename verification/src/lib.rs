//! Spectral prosody: the integer and combinatorial core of spectral graph
//! analysis of metrical patterns (rhyme schemes, stress patterns, phrase
//! segmentation and tradition clustering).

use vstd::prelude::*;

pub mod text;
pub mod error;
pub mod rhyme_adjacency;
pub mod phrase;
pub mod metrical_graph;
pub mod laplacian_scan;
pub mod linalg;
pub mod dial_scan;
pub mod prosody;

pub use rhyme_adjacency::{RhymeScheme, RhymeType};
pub use error::ProsodyError;
pub use phrase::{PhraseSegmenter, PhraseSpan};

verus! {
} // verus!
