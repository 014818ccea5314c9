//! Sketches of DNA sequence data: k-mer markers chosen by a deterministic subsampling hash,
//! genome sketches of the markers seen once, read-set sketches of marker counts, and the
//! grouping and merging of mate-pair read files.

pub mod genome;
pub mod pairing;
pub mod reads;
pub mod sampler;
