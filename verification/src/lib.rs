//! Detection of inverted repeats (hairpin-forming self-complementary regions)
//! in a nucleic-acid sequence, and selection of a maximal-score, structurally
//! consistent subset of the detected candidates.
//!
//! The pipeline: a sequence goes through the prediction driver ([`predict`]),
//! which scans every valid self-alignment offset with the local alignment
//! engine ([`engine`]) over a pluggable scoring scheme ([`scoring`]), tracks
//! locally-optimal paths ([`storage`]), reconstructs them from the decision
//! matrix ([`traceback`]), and models them as repeats ([`repeats`]). The
//! selection optimizer ([`optimize`]) then picks a maximal-score subset of
//! candidates whose coordinates do not conflict.

pub mod alignment;
pub mod dsrna;
pub mod engine;
pub mod optimize;
pub mod predict;
pub mod repeats;
pub mod scoring;
pub mod storage;
pub mod traceback;
