//! Settings that control a search.
use vstd::prelude::*;

verus! {

/// The settings of one search, as given on the command line.
pub struct Configuration {
    /// The pattern searched for.
    pub pattern: String,
    /// The path of the stream searched; `None` for standard input.
    pub datastream: Option<String>,
    /// Use the online algorithm.
    pub online: bool,
    /// When present, only samples of these channels are read.
    pub channels: Option<Vec<String>>,
    /// The largest number of matches to report.
    pub limit: Option<usize>,
    /// Print the data of each match.
    pub export: bool,
    /// Print nothing.
    pub quiet: bool,
    /// Leave out this many frames at the start of the stream.
    pub skip: Option<usize>,
}

} // verus!
