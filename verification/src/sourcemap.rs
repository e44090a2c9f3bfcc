//! A simple source map: byte ranges of generated code mapped to ranges of sources.
use vstd::prelude::*;

verus! {

/// One mapped range: `src_start..src_end` of `src_file` became `dst_start..dst_end`.
#[derive(Debug, Clone)]
pub struct Mapping {
    pub src_file: String,
    pub src_start: usize,
    pub src_end: usize,
    pub dst_start: usize,
    pub dst_end: usize,
}

/// A source map in format `version`.
#[derive(Debug, Clone)]
pub struct SourceMap {
    pub version: u32,
    pub sources: Vec<String>,
    pub mappings: Vec<Mapping>,
}

impl Default for SourceMap {
    /// An empty map in format version 1.
    fn default() -> (r: Self)
        ensures
            r.version == 1,
            r.sources@.len() == 0,
            r.mappings@.len() == 0,
    {
        SourceMap { version: 1, sources: Vec::new(), mappings: Vec::new() }
    }
}

} // verus!
