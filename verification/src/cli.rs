//! The run's configuration, built once at startup and immutable thereafter.
//! Argument parsing itself is a collaborator's job; the engine receives the
//! settled values.

use vstd::prelude::*;

verus! {

/// How you want the information to be delivered
#[derive(Clone, Copy, PartialEq, Eq, Structural, Debug)]
pub enum ReportingMode {
    /// Plain text
    Text,
    /// As a list of JSON objects
    Json,
}

impl Default for ReportingMode {
    fn default() -> (r: Self)
        ensures
            r == ReportingMode::Text,
    {
        ReportingMode::Text
    }
}

/// The comparison run's settings and inputs.
pub struct Cli {
    /// Levenshtein distance threshold (0 uses string comparison)
    pub lev_threshold: usize,
    /// Length of line before initial consideration
    pub line_threshold: usize,
    /// Length of block (cluster of lines) before making comparisons
    pub block_threshold: usize,
    /// Set to increase the details that are output
    pub verbose: bool,
    /// Number of worker threads to spawn
    pub worker_threads: usize,
    /// Files to find the code blocks (leave empty to read from stdin)
    pub files: Vec<String>,
    /// How you want the information to be delivered
    pub reporting_mode: ReportingMode,
}

impl Clone for Cli {
    fn clone(&self) -> (res: Self)
        ensures
            res.lev_threshold == self.lev_threshold,
            res.line_threshold == self.line_threshold,
            res.block_threshold == self.block_threshold,
            res.verbose == self.verbose,
            res.worker_threads == self.worker_threads,
            res.files@ == self.files@,
            res.reporting_mode == self.reporting_mode,
    {
        let files = self.files.clone();
        proof {
            assert forall|i: int| 0 <= i < self.files@.len() implies files@[i] == self.files@[i] by {
                assert(vstd::pervasive::cloned::<String>(self.files@[i], files@[i]));
            }
            assert(files@ =~= self.files@);
        }
        Cli {
            lev_threshold: self.lev_threshold,
            line_threshold: self.line_threshold,
            block_threshold: self.block_threshold,
            verbose: self.verbose,
            worker_threads: self.worker_threads,
            files,
            reporting_mode: self.reporting_mode,
        }
    }
}

impl Cli {
    /// Whether the file list is still to be read from the standard input.
    pub fn files_from_stdin(&self) -> (r: bool)
        ensures
            r == (self.files@.len() == 0),
    {
        self.files.is_empty()
    }
}

} // verus!
