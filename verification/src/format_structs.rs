//! The document shapes the pipeline passes around.

use vstd::prelude::*;

verus! {

/// A source document: title, link, and raw body text.
#[derive(Debug)]
pub struct Post {
    pub title: String,
    pub url: String,
    pub body: String,
}

/// A document reduced to its term-frequency counter.
pub struct PostFreq {
    pub title: String,
    pub url: String,
    pub term_frequency: Vec<(String, u32)>,
}

/// One entry of the search index: the document's filter, serialized and
/// encoded, with the parameters a client needs to query it.
#[derive(Debug)]
pub struct SearchItem {
    pub url: String,
    pub title: String,
    pub sbf_base2p15: String,
    pub width: u32,
    pub size: u32,
    pub n_hash_functions: u32,
}

} // verus!
