//! The run configuration the orchestrator collects before calling into the
//! clustering core: cluster count, input and output locations, the
//! initial-centroid policy and the chosen concurrency strategy. The runner
//! around this library parses real command-line arguments into this shape.

use vstd::prelude::*;

verus! {

/// Which concurrency strategy runs the clustering.
#[derive(Copy, Clone, PartialEq, Eq, PartialOrd, Ord, Debug, Hash)]
pub enum Mode {
    /// Run in serial
    S,
    /// Run in parallel with std lib thread
    Par,
    /// Run in parallel with mutex
    Mutex,
    /// Run using rayon lib
    Ray,
    /// Run using rayon lib
    Ray2,
    /// Run in Tokio
    Tokio,
}

/// The parsed command-line configuration, with file locations as plain
/// strings (standard input or output when absent).
pub struct Args {
    pub k: usize,
    pub output_file: Option<String>,
    pub mode: Mode,
    pub replace_entry: bool,
    pub random_initial: bool,
    /// Main entry
    pub input_file: Option<String>,
}

} // verus!
