//! Builds, per document, a compact approximate-frequency structure for
//! client-side full-text search: a spectral Bloom filter over term
//! frequencies, and a base-2^15 codec that packs its counters into a short,
//! surrogate-safe text string.

pub mod base2p15;
pub mod bits;
pub mod format_structs;
pub mod hash;
pub mod minimize_width;
pub mod murmur3;
pub mod spectral_bloom_filter;
pub mod text;
pub mod tokenize;
