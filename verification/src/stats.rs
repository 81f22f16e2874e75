//! What went wrong during a run, kept for the summary and the exit code.

use vstd::prelude::*;

verus! {

/// One kind of problem, with a line for each time it happened.
pub struct Problem {
    pub lines: Vec<String>,
}

impl Problem {
    pub fn none() -> (p: Problem)
        ensures
            p.lines@.len() == 0,
    {
        Problem { lines: Vec::new() }
    }

    /// Count one more occurrence.
    pub fn record(&mut self, line: String)
        ensures
            final(self).lines@ == old(self).lines@.push(line),
    {
        self.lines.push(line);
    }

    /// How many times it happened.
    pub fn count(&self) -> (n: usize)
        ensures
            n == self.lines@.len(),
    {
        self.lines.len()
    }

    /// The lines, in the order they were recorded.
    pub fn samples(&self) -> (lines: &Vec<String>)
        ensures
            lines@ == self.lines@,
    {
        &self.lines
    }
}

/// Every kind of problem this library can meet.
pub struct RunStats {
    /// Components that were too dense to group.
    pub clustering_abandoned: Problem,
    /// Files that were not acted on because they changed after the scan.
    pub delete_stale: Problem,
    /// Files that could not be acted on.
    pub delete_failed: Problem,
    /// Reports that could not be written.
    pub report_write_failed: Problem,
}

impl RunStats {
    /// Did anything at all go wrong?
    pub fn had_problems(&self) -> (yes: bool)
        ensures
            yes <==> self.clustering_abandoned.lines@.len() > 0 || self.delete_stale.lines@.len()
                > 0 || self.delete_failed.lines@.len() > 0 || self.report_write_failed.lines@.len()
                > 0,
    {
        self.clustering_abandoned.count() > 0 || self.delete_stale.count() > 0
            || self.delete_failed.count() > 0 || self.report_write_failed.count() > 0
    }
}

impl Default for RunStats {
    fn default() -> (s: RunStats)
        ensures
            s.clustering_abandoned.lines@.len() == 0,
            s.delete_stale.lines@.len() == 0,
            s.delete_failed.lines@.len() == 0,
            s.report_write_failed.lines@.len() == 0,
    {
        RunStats {
            clustering_abandoned: Problem::none(),
            delete_stale: Problem::none(),
            delete_failed: Problem::none(),
            report_write_failed: Problem::none(),
        }
    }
}

} // verus!
