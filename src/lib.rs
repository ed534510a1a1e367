//! Transcription-factor binding-site prediction: the discrete part of the engine.
//!
//! - `sequence`: the base alphabet, forward and reverse strands, and the scan set.
//! - `fasta`, `transfac`, `profile`: the grammars of sequence, matrix and
//!   threshold records, with numbers left as text.
//! - `scan`: the keys of the 5-mer significance table, the anchor windows a scan
//!   visits, where it reports them, and the two score filters.
//! - `anchor`: the choice of the anchor window.
//! - `plan`: which matrix scans which strand in an evaluation.
//!
//! Scores are single-precision values carried as their bit patterns; `score`
//! states their order.
pub mod anchor;
pub mod fasta;
pub mod plan;
pub mod profile;
pub mod scan;
pub mod score;
pub mod sequence;
pub mod text;
pub mod transfac;
