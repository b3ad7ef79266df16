//! What the caller has chosen for one run.

use vstd::prelude::*;

verus! {

/// The choices of one run.
pub struct Options {
    pub verbose: bool,
    pub yaml: bool,
    /// Walk cheap branches first instead of dear ones.
    pub reverse: bool,
    pub show_wiki: bool,
    pub show_urls: bool,
    pub show_q: bool,
    pub show_proofs: bool,
    pub crib: bool,
    pub examples: bool,
    pub exercises: bool,
    pub generalizations_before: bool,
    pub write_appendix: bool,
    pub eli5: bool,
    pub make_pdf: bool,
    pub make_tex: bool,
    pub generate_headings: bool,
    pub extra_headings: bool,
    /// How far to follow what topics come before; negative for no limit.
    pub depth: i32,
    pub title: String,
    pub author: String,
    pub date: String,
    pub output: String,
    pub engine: String,
    /// The topics that the document is asked to hold.
    pub files: Vec<String>,
}

} // verus!
