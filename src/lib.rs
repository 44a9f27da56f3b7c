//! Sequence analysis kernels.
//!
//! - `nucleotide`: byte to code mapping, complements, reverse complement.
//! - `kmer`, `encoding`, `sketch`, `strand`: the encoded-sequence handle,
//!   rolling k-mer indices, dense and canonical k-mer counts, MinHash
//!   sketches and their agreement.
//! - `profile`: sliding GC skew and self dot plots.
//! - `alignment`: bounded shortest edit scripts and positional diffs.
//! - `translation`, `grid`: codon translation, base composition, codon
//!   usage, and viewport cells.
//! - `repeats`, `levenshtein`: inverted and tandem repeats, and the
//!   Levenshtein distance.
use vstd::prelude::*;

pub mod nucleotide;
pub mod kmer;
pub mod encoding;
pub mod alignment;
pub mod sketch;
pub mod strand;
pub mod profile;
pub mod translation;
pub mod levenshtein;
pub mod repeats;
pub mod grid;

verus! {

} // verus!
