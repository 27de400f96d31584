use vstd::prelude::*;

verus! {

/// Options of the command that minimizes the cycles of a report.
pub struct MinimizeCyclesOptions {
    pub cycle_results_file: String,
}

/// Options of the command that detects cycles; it has none.
pub struct CycleDetectionOptions {}

/// Options of live mode: the command to rerun, and the comma-separated
/// prefixes of the paths whose changes it reruns for.
pub struct LiveOptions {
    pub cmd: Vec<String>,
    pub paths: String,
}

} // verus!
